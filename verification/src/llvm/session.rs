//! The order in which LLVM is asked for things, and what its answers lead to.
//!
//! A [`Session`] names one request after the other. Whoever holds the library
//! makes it, hands the answer back, and is told how to go on.
use vstd::prelude::*;
use vstd::utf8::{encode_utf8, is_ascii_chars_encode_utf8};

use crate::brackets::{balanced, nesting, no_stray_end};
use crate::llvm::compiler::{BuildError, LLVMCompiler};
use crate::llvm::emit::program_code;
use crate::llvm::error::{c_string, c_string_view, cstring, with_llvm_error, with_llvm_error_ref,
    Cause, CompileError, InteriorNul, UNKNOWN_ERROR};
use crate::llvm::ir::{Function, Inst, MODULE_NAME};
use crate::llvm::memory_buffer::{LLVMMemoryBuffer, SpecBuffer};
use crate::llvm::opt_level::OptLevel;
use crate::llvm::raw::{Address, AsRaw, AsRawMut};
use crate::llvm::target::{arguments_view, machine_strings, LLVMTarget, LLVMTargetMachine,
    PassBuilderOptions};
use crate::normal_form::law_parsed_is_normal;
use crate::op::{Op, SpecOp};
use crate::rewrite::{commands, parsed};

verus! {

/// The processor that code is made for.
pub const TARGET_CPU: &'static str = "generic";

/// The processor's features that code may use beyond the usual ones.
pub const TARGET_FEATURES: &'static str = "";

/// What the object code is wanted for.
#[derive(Clone, Copy, Debug, PartialEq, Eq, Structural)]
pub enum Goal {
    /// To be run, to be handed out, or both.
    Memory { run: bool, need_buffer: bool },
    /// To be written to a file.
    File,
}

/// How far a session has come.
#[derive(Clone, Copy, Debug, PartialEq, Eq, Structural)]
pub enum Stage {
    Context,
    Module,
    Target,
    Machine,
    Layout,
    Options,
    Passes,
    Emit,
    Copy,
    JitBuilder,
    Jit,
    AddObject,
    Lookup,
    Call,
    DisposeJit,
}

/// What LLVM has handed out so far.
#[derive(Clone, Copy, Debug, PartialEq, Eq, Structural)]
pub struct Handles {
    pub context: Address,
    pub target: Address,
    pub tm: Address,
    pub options: Address,
    pub builder: Address,
    pub jit: Address,
    pub entry: Address,
    /// The buffer that was given to the JIT compiler.
    pub given: Address,
}

/// What to ask LLVM for. Strings of bytes end in a zero byte.
#[derive(Debug, PartialEq, Eq)]
pub enum Request<B> {
    /// A context. Before the first one, the targets are initialised.
    CreateContext,
    /// A module of that name, made by the session's code, and whether LLVM
    /// finds it sound.
    BuildModule { context: Address, name: &'static str },
    /// The target of this machine's triple.
    FindTarget,
    /// A target machine, with the usual relocation and code models.
    CreateTargetMachine {
        target: Address,
        cpu: B,
        features: B,
        level: u32,
    },
    /// The module's triple and data layout.
    SetLayout { tm: Address },
    /// Options for the passes.
    CreatePassOptions,
    /// The passes of a pipeline.
    RunPasses { pipeline: &'static str, tm: Address, options: Address },
    /// The object code, in a buffer.
    EmitToMemory { tm: Address },
    /// The object code, in a file.
    EmitToFile { tm: Address, path: B },
    /// The bytes in the buffer.
    CopyObject { buffer: Address },
    /// A builder for a JIT compiler.
    CreateJitBuilder,
    /// A JIT compiler.
    CreateJit { builder: Address },
    /// That the JIT compiler takes the buffer over.
    AddObject { jit: Address, buffer: Address },
    /// The address of a function.
    Lookup { jit: Address, name: &'static str },
    /// A call of that address, as a function that takes nothing.
    Call { entry: Address },
    /// An end to the JIT compiler.
    DisposeJit { jit: Address },
}

impl View for Request<Vec<u8>> {
    type V = Request<Seq<u8>>;

    open spec fn view(&self) -> Request<Seq<u8>> {
        match *self {
            Request::CreateContext => Request::CreateContext,
            Request::BuildModule { context, name } => Request::BuildModule { context, name },
            Request::FindTarget => Request::FindTarget,
            Request::CreateTargetMachine { target, cpu, features, level } =>
                Request::CreateTargetMachine { target, cpu: cpu@, features: features@, level },
            Request::SetLayout { tm } => Request::SetLayout { tm },
            Request::CreatePassOptions => Request::CreatePassOptions,
            Request::RunPasses { pipeline, tm, options } => Request::RunPasses {
                pipeline,
                tm,
                options,
            },
            Request::EmitToMemory { tm } => Request::EmitToMemory { tm },
            Request::EmitToFile { tm, path } => Request::EmitToFile { tm, path: path@ },
            Request::CopyObject { buffer } => Request::CopyObject { buffer },
            Request::CreateJitBuilder => Request::CreateJitBuilder,
            Request::CreateJit { builder } => Request::CreateJit { builder },
            Request::AddObject { jit, buffer } => Request::AddObject { jit, buffer },
            Request::Lookup { jit, name } => Request::Lookup { jit, name },
            Request::Call { entry } => Request::Call { entry },
            Request::DisposeJit { jit } => Request::DisposeJit { jit },
        }
    }
}

/// What LLVM answered. Which parts count depends on the request.
pub struct Reply {
    /// The object asked for; zero if there is none.
    pub handle: Address,
    /// Zero if the call succeeded.
    pub status: i32,
    /// What went wrong.
    pub message: Option<String>,
    /// What the buffer holds.
    pub bytes: Vec<u8>,
}

/// What a [`Reply`] says.
#[verifier::ext_equal]
pub struct SpecReply {
    pub handle: Address,
    pub status: i32,
    pub message: Option<Seq<char>>,
    pub bytes: Seq<u8>,
}

impl View for Reply {
    type V = SpecReply;

    open spec fn view(&self) -> SpecReply {
        SpecReply {
            handle: self.handle,
            status: self.status,
            message: self.message.deep_view(),
            bytes: self.bytes@,
        }
    }
}

/// A compilation under way.
pub struct Session {
    /// The code of the program, or why there is none.
    pub code: Result<Vec<Inst>, BuildError>,
    /// The path of the object file, as C reads it; an empty one if the object
    /// code goes to memory.
    pub path: Result<Vec<u8>, InteriorNul>,
    /// The processor and its features, as C reads them.
    pub machine: Result<(Vec<u8>, Vec<u8>), InteriorNul>,
    pub opt: OptLevel,
    pub goal: Goal,
    pub stage: Stage,
    pub handles: Handles,
    /// The buffer that LLVM puts the object code into.
    pub buffer: LLVMMemoryBuffer,
    /// The object code, once it has been handed out.
    pub object: Option<Vec<u8>>,
}

/// What a [`Session`] holds.
#[verifier::ext_equal]
pub struct SpecSession {
    pub code: Result<Seq<Inst>, BuildError>,
    pub path: Result<Seq<u8>, Seq<char>>,
    pub machine: Result<(Seq<u8>, Seq<u8>), Seq<char>>,
    pub opt: OptLevel,
    pub goal: Goal,
    pub stage: Stage,
    pub handles: Handles,
    pub buffer: SpecBuffer,
    pub object: Option<Seq<u8>>,
}

impl View for Session {
    type V = SpecSession;

    open spec fn view(&self) -> SpecSession {
        SpecSession {
            code: match self.code {
                Ok(code) => Ok(code@),
                Err(error) => Err(error),
            },
            path: c_string_view(self.path),
            machine: arguments_view(self.machine),
            opt: self.opt,
            goal: self.goal,
            stage: self.stage,
            handles: self.handles,
            buffer: self.buffer@,
            object: match self.object {
                Some(object) => Some(object@),
                None => None,
            },
        }
    }
}

/// How a session goes on.
pub enum Verdict {
    /// With another request.
    Go(Session),
    /// Not at all: it is done. The buffer is left over.
    Finished(Option<Vec<u8>>, LLVMMemoryBuffer),
    /// Not at all: it has failed. The buffer is left over.
    Failed(CompileError, LLVMMemoryBuffer),
}

/// What a [`Verdict`] says.
#[verifier::ext_equal]
pub enum SpecVerdict {
    Go(SpecSession),
    Finished(Option<Seq<u8>>, SpecBuffer),
    Failed(Cause, Option<Seq<char>>, SpecBuffer),
}

impl View for Verdict {
    type V = SpecVerdict;

    open spec fn view(&self) -> SpecVerdict {
        match *self {
            Verdict::Go(session) => SpecVerdict::Go(session@),
            Verdict::Finished(object, buffer) => SpecVerdict::Finished(
                match object {
                    Some(object) => Some(object@),
                    None => None,
                },
                buffer@,
            ),
            Verdict::Failed(error, buffer) => SpecVerdict::Failed(
                error.cause,
                match error.detail {
                    Some(detail) => Some(detail@),
                    None => None,
                },
                buffer@,
            ),
        }
    }
}

/// The code that the session is to build: that of the program, or the reason
/// why there is none.
pub open spec fn code_of(ops: Seq<SpecOp>) -> Result<Seq<Inst>, BuildError> {
    if !no_stray_end(ops, ops.len() as int) {
        Err(BuildError::LoopMismatch)
    } else if nesting(ops, ops.len() as int) > 0 {
        Err(BuildError::LoopStackNotEmpty)
    } else {
        Ok(program_code(ops))
    }
}

/// Nothing handed out yet.
pub open spec fn no_handles() -> Handles {
    Handles { context: 0, target: 0, tm: 0, options: 0, builder: 0, jit: 0, entry: 0, given: 0 }
}

/// No buffer yet.
pub open spec fn no_buffer() -> SpecBuffer {
    SpecBuffer { address: 0, taken: false }
}

/// A session before its first request. The path is that of the object file.
pub open spec fn opened(
    ops: Seq<SpecOp>,
    path: Seq<char>,
    opt: OptLevel,
    goal: Goal,
) -> SpecSession {
    SpecSession {
        code: code_of(ops),
        path: c_string(path),
        machine: machine_strings(TARGET_CPU@, TARGET_FEATURES@),
        opt,
        goal,
        stage: Stage::Context,
        handles: no_handles(),
        buffer: no_buffer(),
        object: None,
    }
}

/// The request of a stage.
pub open spec fn request_of(s: SpecSession) -> Request<Seq<u8>> {
    match s.stage {
        Stage::Context => Request::CreateContext,
        Stage::Module => Request::BuildModule { context: s.handles.context, name: MODULE_NAME },
        Stage::Target => Request::FindTarget,
        Stage::Machine => Request::CreateTargetMachine {
            target: s.handles.target,
            cpu: if s.machine is Ok {
                s.machine->Ok_0.0
            } else {
                seq![]
            },
            features: if s.machine is Ok {
                s.machine->Ok_0.1
            } else {
                seq![]
            },
            level: s.opt.codegen_level(),
        },
        Stage::Layout => Request::SetLayout { tm: s.handles.tm },
        Stage::Options => Request::CreatePassOptions,
        Stage::Passes => Request::RunPasses {
            pipeline: s.opt.pass_pipeline(),
            tm: s.handles.tm,
            options: s.handles.options,
        },
        Stage::Emit => match s.goal {
            Goal::Memory { .. } => Request::EmitToMemory { tm: s.handles.tm },
            Goal::File => Request::EmitToFile {
                tm: s.handles.tm,
                path: match s.path {
                    Ok(path) => path,
                    Err(_) => seq![],
                },
            },
        },
        Stage::Copy => Request::CopyObject { buffer: s.buffer.address },
        Stage::JitBuilder => Request::CreateJitBuilder,
        Stage::Jit => Request::CreateJit { builder: s.handles.builder },
        Stage::AddObject => Request::AddObject { jit: s.handles.jit, buffer: s.handles.given },
        Stage::Lookup => Request::Lookup { jit: s.handles.jit, name: "main" },
        Stage::Call => Request::Call { entry: s.handles.entry },
        Stage::DisposeJit => Request::DisposeJit { jit: s.handles.jit },
    }
}

/// Whether an answer lets the session go on; if not, what has failed, and what
/// LLVM says of it.
pub open spec fn objection(s: SpecSession, reply: SpecReply) -> Option<(Cause, Option<Seq<char>>)> {
    let told = match reply.message {
        Some(text) => text,
        None => UNKNOWN_ERROR@,
    };
    match s.stage {
        Stage::Context => if reply.handle == 0 {
            Some((Cause::Context, None))
        } else {
            match s.code {
                Ok(_) => None,
                Err(error) => Some((error.spec_cause(), None)),
            }
        },
        Stage::Module => if reply.status != 0 {
            Some((Cause::Verification, None))
        } else {
            None
        },
        Stage::Target => if reply.status != 0 {
            match s.goal {
                Goal::Memory { .. } => Some((Cause::Target, Some(told))),
                Goal::File => Some((Cause::FileTarget, Some(told))),
            }
        } else {
            match s.machine {
                Ok(_) => None,
                Err(refused) => Some((Cause::InteriorNul, Some(refused))),
            }
        },
        Stage::Machine => match s.machine {
            Ok(_) => if reply.handle == 0 {
                Some((Cause::TargetMachine, None))
            } else {
                None
            },
            Err(refused) => Some((Cause::InteriorNul, Some(refused))),
        },
        Stage::Layout => None,
        Stage::Options => if reply.handle == 0 {
            Some((Cause::PassOptions, None))
        } else {
            None
        },
        Stage::Passes => if reply.message is Some {
            Some((Cause::Passes, reply.message))
        } else {
            match (s.goal, s.path) {
                (Goal::File, Err(refused)) => Some((Cause::InteriorNul, Some(refused))),
                _ => None,
            }
        },
        Stage::Emit => if reply.status != 0 {
            Some((Cause::Emit, Some(told)))
        } else {
            None
        },
        Stage::Copy => None,
        Stage::JitBuilder => if reply.handle == 0 {
            Some((Cause::JitBuilder, None))
        } else {
            None
        },
        Stage::Jit => if reply.message is Some {
            Some((Cause::Jit, reply.message))
        } else {
            None
        },
        Stage::AddObject => if reply.message is Some {
            Some((Cause::AddObject, reply.message))
        } else {
            None
        },
        Stage::Lookup => if reply.message is Some {
            Some((Cause::Lookup, reply.message))
        } else {
            None
        },
        Stage::Call => None,
        Stage::DisposeJit => if reply.message is Some {
            Some((Cause::DisposeJit, reply.message))
        } else {
            None
        },
    }
}

/// The stages that a session goes through.
pub open spec fn course(goal: Goal) -> Seq<Stage> {
    let common = seq![
        Stage::Context,
        Stage::Module,
        Stage::Target,
        Stage::Machine,
        Stage::Layout,
        Stage::Options,
        Stage::Passes,
        Stage::Emit,
    ];
    let copy = if goal matches Goal::Memory { need_buffer: true, .. } {
        seq![Stage::Copy]
    } else {
        seq![]
    };
    let jit = if goal matches Goal::Memory { run: true, .. } {
        seq![
            Stage::JitBuilder,
            Stage::Jit,
            Stage::AddObject,
            Stage::Lookup,
            Stage::Call,
            Stage::DisposeJit,
        ]
    } else {
        seq![]
    };
    common + copy + jit
}

/// The stage after one, if any.
pub open spec fn stage_after(stage: Stage, goal: Goal) -> Option<Stage> {
    match stage {
        Stage::Context => Some(Stage::Module),
        Stage::Module => Some(Stage::Target),
        Stage::Target => Some(Stage::Machine),
        Stage::Machine => Some(Stage::Layout),
        Stage::Layout => Some(Stage::Options),
        Stage::Options => Some(Stage::Passes),
        Stage::Passes => Some(Stage::Emit),
        Stage::Emit => match goal {
            Goal::Memory { need_buffer: true, .. } => Some(Stage::Copy),
            Goal::Memory { run: true, .. } => Some(Stage::JitBuilder),
            _ => None,
        },
        Stage::Copy => match goal {
            Goal::Memory { run: true, .. } => Some(Stage::JitBuilder),
            _ => None,
        },
        Stage::JitBuilder => Some(Stage::Jit),
        Stage::Jit => Some(Stage::AddObject),
        Stage::AddObject => Some(Stage::Lookup),
        Stage::Lookup => Some(Stage::Call),
        Stage::Call => Some(Stage::DisposeJit),
        Stage::DisposeJit => None,
    }
}

/// The buffer once an answer has come.
pub open spec fn buffer_with(s: SpecSession, reply: SpecReply) -> SpecBuffer {
    if s.stage == Stage::Emit && s.goal is Memory {
        SpecBuffer { address: reply.handle, ..s.buffer }
    } else {
        s.buffer
    }
}

/// What the session holds with an answer that lets it go on. With a JIT
/// compiler, the buffer is given away.
pub open spec fn noted(s: SpecSession, reply: SpecReply) -> SpecSession {
    let h = s.handles;
    match s.stage {
        Stage::Context => SpecSession { handles: Handles { context: reply.handle, ..h }, ..s },
        Stage::Target => SpecSession { handles: Handles { target: reply.handle, ..h }, ..s },
        Stage::Machine => SpecSession { handles: Handles { tm: reply.handle, ..h }, ..s },
        Stage::Options => SpecSession { handles: Handles { options: reply.handle, ..h }, ..s },
        Stage::Emit => SpecSession { buffer: buffer_with(s, reply), ..s },
        Stage::Copy => SpecSession { object: Some(reply.bytes), ..s },
        Stage::JitBuilder => SpecSession { handles: Handles { builder: reply.handle, ..h }, ..s },
        Stage::Jit => SpecSession {
            handles: Handles { jit: reply.handle, given: s.buffer.address, ..h },
            buffer: SpecBuffer { taken: true, ..s.buffer },
            ..s
        },
        Stage::Lookup => SpecSession { handles: Handles { entry: reply.handle, ..h }, ..s },
        _ => s,
    }
}

/// How a session goes on with an answer.
pub open spec fn judged(s: SpecSession, reply: SpecReply) -> SpecVerdict {
    match objection(s, reply) {
        Some((cause, detail)) => SpecVerdict::Failed(cause, detail, buffer_with(s, reply)),
        None => match stage_after(s.stage, s.goal) {
            Some(stage) => SpecVerdict::Go(SpecSession { stage, ..noted(s, reply) }),
            None => SpecVerdict::Finished(noted(s, reply).object, noted(s, reply).buffer),
        },
    }
}

impl Session {
    /// A session for a program whose object code goes to memory.
    pub fn compile(ops: &[Op], opt: &OptLevel, run: bool, need_buffer: bool) -> (res: Self)
        ensures
            res@ == opened(ops.deep_view(), ""@, *opt, Goal::Memory { run, need_buffer }),
    {
        Session::open(ops, "", *opt, Goal::Memory { run, need_buffer })
    }

    /// A session for a program whose object code goes to the file at
    /// `object_path`.
    pub fn compile_to_object(ops: &[Op], object_path: &str, opt: &OptLevel) -> (res: Self)
        ensures
            res@ == opened(ops.deep_view(), object_path@, *opt, Goal::File),
    {
        Session::open(ops, object_path, *opt, Goal::File)
    }

    fn open(ops: &[Op], object_path: &str, opt: OptLevel, goal: Goal) -> (res: Self)
        ensures
            res@ == opened(ops.deep_view(), object_path@, opt, goal),
    {
        let code = LLVMCompiler::new().build(ops);
        assert(nesting(ops.deep_view(), ops.len() as int) >= 0 || !no_stray_end(
            ops.deep_view(),
            ops.len() as int,
        ));
        Session {
            code,
            path: cstring(object_path),
            machine: LLVMTargetMachine::arguments(TARGET_CPU, TARGET_FEATURES),
            opt,
            goal,
            stage: Stage::Context,
            handles: Handles {
                context: 0,
                target: 0,
                tm: 0,
                options: 0,
                builder: 0,
                jit: 0,
                entry: 0,
                given: 0,
            },
            buffer: LLVMMemoryBuffer::new(),
            object: None,
        }
    }

    /// What to ask LLVM for next.
    pub fn request(&self) -> (res: Request<Vec<u8>>)
        ensures
            res@ == request_of(self@),
    {
        match self.stage {
            Stage::Context => Request::CreateContext,
            Stage::Module => Request::BuildModule {
                context: self.handles.context,
                name: MODULE_NAME,
            },
            Stage::Target => Request::FindTarget,
            Stage::Machine => {
                let (cpu, features) = match &self.machine {
                    Ok((cpu, features)) => (copied(cpu), copied(features)),
                    Err(_) => (Vec::new(), Vec::new()),
                };
                Request::CreateTargetMachine {
                    target: self.handles.target,
                    cpu,
                    features,
                    level: self.opt.llvm_codegen_level(),
                }
            },
            Stage::Layout => Request::SetLayout { tm: self.handles.tm },
            Stage::Options => Request::CreatePassOptions,
            Stage::Passes => Request::RunPasses {
                pipeline: self.opt.llvm_pass_pipeline(),
                tm: self.handles.tm,
                options: self.handles.options,
            },
            Stage::Emit => match self.goal {
                Goal::Memory { .. } => Request::EmitToMemory { tm: self.handles.tm },
                Goal::File => {
                    let path = match &self.path {
                        Ok(path) => copied(path),
                        Err(_) => Vec::new(),
                    };
                    Request::EmitToFile { tm: self.handles.tm, path }
                },
            },
            Stage::Copy => Request::CopyObject { buffer: self.buffer.address_of() },
            Stage::JitBuilder => Request::CreateJitBuilder,
            Stage::Jit => Request::CreateJit { builder: self.handles.builder },
            Stage::AddObject => Request::AddObject {
                jit: self.handles.jit,
                buffer: self.handles.given,
            },
            Stage::Lookup => Request::Lookup {
                jit: self.handles.jit,
                name: Function::Main.name(),
            },
            Stage::Call => Request::Call { entry: self.handles.entry },
            Stage::DisposeJit => Request::DisposeJit { jit: self.handles.jit },
        }
    }

    /// Takes LLVM's answer to the request.
    pub fn advance(self, reply: Reply) -> (res: Verdict)
        ensures
            res@ == judged(self@, reply@),
    {
        let mut this = self;
        let next: Option<Stage> = match this.stage {
            Stage::Context => {
                if reply.handle == 0 {
                    return this.failed(Cause::Context);
                }
                match &this.code {
                    Ok(_) => {},
                    Err(error) => {
                        let cause = error.cause();
                        return this.failed(cause);
                    },
                }
                this.handles.context = reply.handle;
                Some(Stage::Module)
            },
            Stage::Module => {
                if reply.status != 0 {
                    return this.failed(Cause::Verification);
                }
                Some(Stage::Target)
            },
            Stage::Target => {
                match LLVMTarget::from_triple(reply.status, reply.message, reply.handle) {
                    Ok(target) => {
                        this.handles.target = target.as_raw();
                    },
                    Err(error) => {
                        let cause = match this.goal {
                            Goal::Memory { .. } => error.cause,
                            Goal::File => Cause::FileTarget,
                        };
                        return Verdict::Failed(
                            CompileError { cause, detail: error.detail },
                            this.buffer,
                        );
                    },
                }
                match &this.machine {
                    Ok(_) => {},
                    Err(error) => {
                        let refused = error.quoted.clone();
                        return this.failed_with(Cause::InteriorNul, refused);
                    },
                }
                Some(Stage::Machine)
            },
            Stage::Machine => {
                match LLVMTargetMachine::new(&this.machine, reply.handle) {
                    Ok(tm) => {
                        this.handles.tm = tm.as_raw();
                    },
                    Err(error) => {
                        return Verdict::Failed(error, this.buffer);
                    },
                }
                Some(Stage::Layout)
            },
            Stage::Layout => Some(Stage::Options),
            Stage::Options => {
                match PassBuilderOptions::new(reply.handle) {
                    Ok(options) => {
                        this.handles.options = options.as_raw();
                    },
                    Err(error) => {
                        return Verdict::Failed(error, this.buffer);
                    },
                }
                Some(Stage::Passes)
            },
            Stage::Passes => {
                match with_llvm_error_ref(reply.message) {
                    Ok(_) => {},
                    Err(detail) => {
                        return this.failed_with(Cause::Passes, detail);
                    },
                }
                match (this.goal, &this.path) {
                    (Goal::File, Err(error)) => {
                        let refused = error.quoted.clone();
                        return this.failed_with(Cause::InteriorNul, refused);
                    },
                    _ => {},
                }
                Some(Stage::Emit)
            },
            Stage::Emit => {
                match this.goal {
                    Goal::Memory { .. } => {
                        this.buffer.fill(reply.handle);
                    },
                    Goal::File => {},
                }
                match with_llvm_error(reply.status, reply.message) {
                    Ok(_) => {},
                    Err(detail) => {
                        return this.failed_with(Cause::Emit, detail);
                    },
                }
                match this.goal {
                    Goal::Memory { need_buffer: true, .. } => Some(Stage::Copy),
                    Goal::Memory { run: true, .. } => Some(Stage::JitBuilder),
                    _ => None,
                }
            },
            Stage::Copy => {
                this.object = Some(reply.bytes);
                match this.goal {
                    Goal::Memory { run: true, .. } => Some(Stage::JitBuilder),
                    _ => None,
                }
            },
            Stage::JitBuilder => {
                if reply.handle == 0 {
                    return this.failed(Cause::JitBuilder);
                }
                this.handles.builder = reply.handle;
                Some(Stage::Jit)
            },
            Stage::Jit => {
                match with_llvm_error_ref(reply.message) {
                    Ok(_) => {},
                    Err(detail) => {
                        return this.failed_with(Cause::Jit, detail);
                    },
                }
                this.handles.jit = reply.handle;
                this.handles.given = this.buffer.as_raw_mut();
                Some(Stage::AddObject)
            },
            Stage::AddObject => {
                match with_llvm_error_ref(reply.message) {
                    Ok(_) => {},
                    Err(detail) => {
                        return this.failed_with(Cause::AddObject, detail);
                    },
                }
                Some(Stage::Lookup)
            },
            Stage::Lookup => {
                match with_llvm_error_ref(reply.message) {
                    Ok(_) => {},
                    Err(detail) => {
                        return this.failed_with(Cause::Lookup, detail);
                    },
                }
                this.handles.entry = reply.handle;
                Some(Stage::Call)
            },
            Stage::Call => Some(Stage::DisposeJit),
            Stage::DisposeJit => {
                match with_llvm_error_ref(reply.message) {
                    Ok(_) => {},
                    Err(detail) => {
                        return this.failed_with(Cause::DisposeJit, detail);
                    },
                }
                None
            },
        };
        match next {
            Some(stage) => {
                this.stage = stage;
                Verdict::Go(this)
            },
            None => Verdict::Finished(this.object, this.buffer),
        }
    }

    /// A failure of which LLVM says nothing.
    fn failed(self, cause: Cause) -> (res: Verdict)
        ensures
            res@ == SpecVerdict::Failed(cause, None, self.buffer@),
    {
        Verdict::Failed(CompileError { cause, detail: None }, self.buffer)
    }

    /// A failure of which there is something to say.
    fn failed_with(self, cause: Cause, detail: String) -> (res: Verdict)
        ensures
            res@ == SpecVerdict::Failed(cause, Some(detail@), self.buffer@),
    {
        Verdict::Failed(CompileError { cause, detail: Some(detail) }, self.buffer)
    }
}

/// The same bytes.
fn copied(bytes: &Vec<u8>) -> (res: Vec<u8>)
    ensures
        res@ == bytes@,
{
    let res = bytes.clone();
    assert(res@ =~= bytes@);
    res
}

/// How a session stands after some answers.
pub open spec fn after_replies(s: SpecSession, replies: Seq<SpecReply>) -> SpecVerdict
    decreases replies.len(),
{
    if replies.len() == 0 {
        SpecVerdict::Go(s)
    } else {
        match after_replies(s, replies.drop_last()) {
            SpecVerdict::Go(next) => judged(next, replies.last()),
            over => over,
        }
    }
}

/// What keeps an answer at the `k`th stage from letting the session go on.
pub open spec fn objection_at(s: SpecSession, k: int, reply: SpecReply) -> Option<
    (Cause, Option<Seq<char>>),
> {
    objection(SpecSession { stage: course(s.goal)[k], ..s }, reply)
}

/// The object code that a session hands out, given the answers.
pub open spec fn handed_out(goal: Goal, replies: Seq<SpecReply>) -> Option<Seq<u8>> {
    if goal matches Goal::Memory { need_buffer: true, .. } {
        Some(replies[8].bytes)
    } else {
        None
    }
}

/// The buffer after the answers: at the address that came with the object code,
/// and given away once there is a JIT compiler.
pub open spec fn buffer_after(goal: Goal, replies: Seq<SpecReply>) -> SpecBuffer {
    let n = replies.len();
    SpecBuffer {
        address: if n > 7 && goal is Memory {
            replies[7].handle
        } else {
            0
        },
        taken: match goal {
            Goal::Memory { run: true, need_buffer } => n > (if need_buffer {
                10
            } else {
                9int
            }),
            _ => false,
        },
    }
}

/// The `k`th stage leads to the next.
proof fn lemma_course(goal: Goal, k: int)
    requires
        0 <= k < course(goal).len(),
    ensures
        course(goal)[0] == Stage::Context,
        stage_after(course(goal)[k], goal) == (if k + 1 < course(goal).len() {
            Some(course(goal)[k + 1])
        } else {
            None
        }),
        course(goal)[k] == Stage::Copy <==> k == 8 && (goal matches Goal::Memory {
            need_buffer: true,
            ..
        }),
        course(goal)[k] == Stage::Emit <==> k == 7,
        course(goal)[k] == Stage::Jit <==> (goal matches Goal::Memory { run: true, need_buffer }
            && k == (if need_buffer {
            10
        } else {
            9int
        })),
{
    let c = course(goal);
    assert(k == 0 || k == 1 || k == 2 || k == 3 || k == 4 || k == 5 || k == 6 || k == 7 || k == 8
        || k == 9 || k == 10 || k == 11 || k == 12 || k == 13 || k == 14);
}

/// While LLVM does what it is asked, the session makes the requests of its
/// course, one after the other.
pub proof fn law_session_keeps_course(
    ops: Seq<SpecOp>,
    path: Seq<char>,
    opt: OptLevel,
    goal: Goal,
    replies: Seq<SpecReply>,
)
    requires
        replies.len() < course(goal).len(),
        forall|k: int|
            0 <= k < replies.len() ==> objection_at(
                opened(ops, path, opt, goal),
                k,
                #[trigger] replies[k],
            ) is None,
    ensures
        match after_replies(opened(ops, path, opt, goal), replies) {
            SpecVerdict::Go(next) => {
                &&& next.stage == course(goal)[replies.len() as int]
                &&& next.code == code_of(ops)
                &&& next.path == c_string(path)
                &&& next.machine == machine_strings(TARGET_CPU@, TARGET_FEATURES@)
                &&& next.opt == opt
                &&& next.goal == goal
                &&& next.buffer == buffer_after(goal, replies)
                &&& next.object == (if replies.len() > 8 {
                    handed_out(goal, replies)
                } else {
                    None
                })
            },
            _ => false,
        },
    decreases replies.len(),
{
    let n = replies.len() as int;
    if n == 0 {
        lemma_course(goal, 0);
    } else {
        let before = replies.drop_last();
        assert forall|k: int| 0 <= k < before.len() implies objection_at(
            opened(ops, path, opt, goal),
            k,
            #[trigger] before[k],
        ) is None by {
            assert(before[k] == replies[k]);
        }
        law_session_keeps_course(ops, path, opt, goal, before);
        assert(objection_at(opened(ops, path, opt, goal), n - 1, replies[n - 1]) is None);
        lemma_course(goal, n - 1);
    }
}

/// If LLVM does all that it is asked, the session is done when its course is,
/// and hands the object code out if and only if that was wanted.
pub proof fn law_session_succeeds(
    ops: Seq<SpecOp>,
    path: Seq<char>,
    opt: OptLevel,
    goal: Goal,
    replies: Seq<SpecReply>,
)
    requires
        replies.len() == course(goal).len(),
        forall|k: int|
            0 <= k < replies.len() ==> objection_at(
                opened(ops, path, opt, goal),
                k,
                #[trigger] replies[k],
            ) is None,
    ensures
        after_replies(opened(ops, path, opt, goal), replies) == SpecVerdict::Finished(
            handed_out(goal, replies),
            buffer_after(goal, replies),
        ),
{
    let n = replies.len() as int;
    let before = replies.drop_last();
    assert forall|k: int| 0 <= k < before.len() implies objection_at(
        opened(ops, path, opt, goal),
        k,
        #[trigger] before[k],
    ) is None by {
        assert(before[k] == replies[k]);
    }
    law_session_keeps_course(ops, path, opt, goal, before);
    assert(objection_at(opened(ops, path, opt, goal), n - 1, replies[n - 1]) is None);
    lemma_course(goal, n - 1);
}

/// The first request that LLVM does not meet ends the session with an error
/// that says which it was; nothing is asked for after it.
pub proof fn law_session_fails(
    ops: Seq<SpecOp>,
    path: Seq<char>,
    opt: OptLevel,
    goal: Goal,
    replies: Seq<SpecReply>,
    n: int,
)
    requires
        0 <= n < course(goal).len(),
        n < replies.len(),
        forall|k: int|
            0 <= k < n ==> objection_at(
                opened(ops, path, opt, goal),
                k,
                #[trigger] replies[k],
            ) is None,
        objection_at(opened(ops, path, opt, goal), n, replies[n]) is Some,
    ensures
        after_replies(opened(ops, path, opt, goal), replies) == ({
            let why = objection_at(opened(ops, path, opt, goal), n, replies[n])->0;
            SpecVerdict::Failed(
                why.0,
                why.1,
                if n < 7 {
                    no_buffer()
                } else {
                    buffer_after(goal, replies.take(if n == 7 {
                        8
                    } else {
                        n
                    }))
                },
            )
        }),
    decreases replies.len(),
{
    let before = replies.drop_last();
    if n < replies.len() - 1 {
        assert(before[n] == replies[n]);
        assert forall|k: int| 0 <= k < n implies objection_at(
            opened(ops, path, opt, goal),
            k,
            #[trigger] before[k],
        ) is None by {
            assert(before[k] == replies[k]);
        }
        law_session_fails(ops, path, opt, goal, before, n);
    } else {
        assert forall|k: int| 0 <= k < before.len() implies objection_at(
            opened(ops, path, opt, goal),
            k,
            #[trigger] before[k],
        ) is None by {
            assert(before[k] == replies[k]);
        }
        law_session_keeps_course(ops, path, opt, goal, before);
    }
}

/// The compiled program is called if and only if that was wanted.
pub proof fn law_called_only_when_wanted(goal: Goal)
    ensures
        course(goal).contains(Stage::Call) <==> goal matches Goal::Memory { run: true, .. },
{
    let c = course(goal);
    if goal matches Goal::Memory { run: true, .. } {
        assert(c[c.len() - 2] == Stage::Call);
    }
}

/// A program that was read from a source text has code.
pub proof fn law_parsed_program_has_code(source: Seq<u8>)
    requires
        balanced(commands(source)),
    ensures
        code_of(parsed(source)) == Ok::<_, BuildError>(program_code(parsed(source))),
{
    law_parsed_is_normal(source);
}

/// The stage comes before object code is emitted.
pub open spec fn is_before_emit(stage: Stage) -> bool {
    match stage {
        Stage::Context => true,
        Stage::Module => true,
        Stage::Target => true,
        Stage::Machine => true,
        Stage::Layout => true,
        Stage::Options => true,
        Stage::Passes => true,
        _ => false,
    }
}

/// Whatever LLVM answers, and whatever the object code is wanted for, none is
/// emitted of a program whose loops do not match: after the first answer the
/// session asks for nothing more, and it is never done.
pub proof fn law_unbalanced_program_is_not_emitted(
    ops: Seq<SpecOp>,
    path: Seq<char>,
    opt: OptLevel,
    goal: Goal,
    replies: Seq<SpecReply>,
)
    requires
        !balanced(ops),
    ensures
        match after_replies(opened(ops, path, opt, goal), replies) {
            SpecVerdict::Go(next) => replies.len() == 0 && next.stage == Stage::Context && next
                == opened(ops, path, opt, goal),
            SpecVerdict::Finished(_, _) => false,
            SpecVerdict::Failed(_, _, _) => true,
        },
    decreases replies.len(),
{
    if replies.len() > 0 {
        law_unbalanced_program_is_not_emitted(ops, path, opt, goal, replies.drop_last());
    }
}

/// Whatever LLVM answers, no object file is emitted for a path that holds a
/// zero: the session never comes to ask for it, and is never done.
pub proof fn law_refused_path_is_not_emitted(
    ops: Seq<SpecOp>,
    path: Seq<char>,
    opt: OptLevel,
    replies: Seq<SpecReply>,
)
    requires
        c_string(path) is Err,
    ensures
        match after_replies(opened(ops, path, opt, Goal::File), replies) {
            SpecVerdict::Go(next) => is_before_emit(next.stage) && next.goal == Goal::File
                && next.path == c_string(path),
            SpecVerdict::Finished(_, _) => false,
            SpecVerdict::Failed(_, _, _) => true,
        },
    decreases replies.len(),
{
    if replies.len() > 0 {
        law_refused_path_is_not_emitted(ops, path, opt, replies.drop_last());
    }
}

/// The processor and features that the session asks for have the forms that C
/// reads.
pub proof fn law_target_strings()
    ensures
        machine_strings(TARGET_CPU@, TARGET_FEATURES@) == Ok::<_, Seq<char>>(
            (seq![103u8, 101, 110, 101, 114, 105, 99, 0], seq![0u8]),
        ),
{
    reveal_strlit("generic");
    reveal_strlit("");
    let cpu = "generic"@;
    let features = ""@;
    is_ascii_chars_encode_utf8(cpu);
    is_ascii_chars_encode_utf8(features);
    let bytes = encode_utf8(cpu);
    assert forall|i: int| 0 <= i < bytes.len() implies bytes[i] == cpu[i] as u8 by {}
    assert(bytes =~= seq![103u8, 101, 110, 101, 114, 105, 99]);
    assert(bytes.push(0) =~= seq![103u8, 101, 110, 101, 114, 105, 99, 0]);
    assert(encode_utf8(features) =~= seq![]);
    assert(encode_utf8(features).push(0) =~= seq![0u8]);
}

} // verus!
