use fastbf::llvm::error::Cause;
use fastbf::llvm::memory_buffer::LLVMMemoryBuffer;
use fastbf::llvm::session::{Reply, Request, Session, Stage, Verdict};
use fastbf::{Op, OptLevel};

fn reply(handle: usize) -> Reply {
    Reply { handle, status: 0, message: None, bytes: vec![1, 2, 3] }
}

fn failing() -> Reply {
    Reply { handle: 0, status: 1, message: Some(String::from("why")), bytes: vec![] }
}

fn silent() -> Reply {
    Reply { handle: 0, status: 1, message: None, bytes: vec![] }
}

/// The requests of a session in which LLVM does all that it is asked, and what
/// comes of it.
fn requests(mut session: Session) -> (Vec<Request<Vec<u8>>>, Option<Vec<u8>>, LLVMMemoryBuffer) {
    let mut asked = Vec::new();
    loop {
        asked.push(session.request());
        match session.advance(reply(10 + asked.len())) {
            Verdict::Go(next) => session = next,
            Verdict::Finished(object, buffer) => return (asked, object, buffer),
            Verdict::Failed(error, _) => panic!("{}", error.message()),
        }
    }
}

/// The session after `n` requests that LLVM met.
fn after(mut session: Session, n: usize) -> Session {
    for k in 0..n {
        match session.advance(reply(11 + k)) {
            Verdict::Go(next) => session = next,
            Verdict::Finished(_, _) => panic!("it is over"),
            Verdict::Failed(error, _) => panic!("{}", error.message()),
        }
    }
    session
}

fn common(level: u32, pipeline: &'static str) -> Vec<Request<Vec<u8>>> {
    vec![
        Request::CreateContext,
        Request::BuildModule { context: 11, name: "bf_module" },
        Request::FindTarget,
        Request::CreateTargetMachine { target: 13, cpu: b"generic\0".to_vec(), features: b"\0".to_vec(), level },
        Request::SetLayout { tm: 14 },
        Request::CreatePassOptions,
        Request::RunPasses { pipeline, tm: 14, options: 16 },
    ]
}

#[test]
fn a_session_that_runs_and_hands_out() {
    let (asked, object, buffer) = requests(Session::compile(&[Op::Output], &OptLevel::O2, true, true));
    let mut expected = common(2, "default<O2>");
    expected.extend([
        Request::EmitToMemory { tm: 14 },
        Request::CopyObject { buffer: 18 },
        Request::CreateJitBuilder,
        Request::CreateJit { builder: 20 },
        Request::AddObject { jit: 21, buffer: 18 },
        Request::Lookup { jit: 21, name: "main" },
        Request::Call { entry: 23 },
        Request::DisposeJit { jit: 21 },
    ]);
    assert_eq!(asked, expected);
    assert_eq!(object, Some(vec![1, 2, 3]));
    assert_eq!(buffer.address_of(), 18);
    assert!(!buffer.needs_dispose());
}

#[test]
fn a_session_that_hands_out() {
    let (asked, object, buffer) = requests(Session::compile(&[], &OptLevel::O0, false, true));
    let mut expected = common(0, "default<O0>");
    expected.extend([Request::EmitToMemory { tm: 14 }, Request::CopyObject { buffer: 18 }]);
    assert_eq!(asked, expected);
    assert_eq!(object, Some(vec![1, 2, 3]));
    assert_eq!(buffer.address_of(), 18);
    assert!(buffer.needs_dispose());
}

#[test]
fn a_session_that_runs() {
    let (asked, object, buffer) = requests(Session::compile(&[], &OptLevel::O3, true, false));
    let mut expected = common(3, "default<O3>");
    expected.extend([
        Request::EmitToMemory { tm: 14 },
        Request::CreateJitBuilder,
        Request::CreateJit { builder: 19 },
        Request::AddObject { jit: 20, buffer: 18 },
        Request::Lookup { jit: 20, name: "main" },
        Request::Call { entry: 22 },
        Request::DisposeJit { jit: 20 },
    ]);
    assert_eq!(asked, expected);
    assert_eq!(object, None);
    assert_eq!(buffer.address_of(), 18);
    assert!(!buffer.needs_dispose());
}

#[test]
fn a_session_that_does_neither() {
    let (asked, object, buffer) = requests(Session::compile(&[], &OptLevel::O1, false, false));
    let mut expected = common(1, "default<O1>");
    expected.push(Request::EmitToMemory { tm: 14 });
    assert_eq!(asked, expected);
    assert_eq!(object, None);
    assert_eq!(buffer.address_of(), 18);
    assert!(buffer.needs_dispose());
}

#[test]
fn a_session_for_a_file() {
    let (asked, object, buffer) = requests(Session::compile_to_object(&[], "a.o", &OptLevel::O1));
    let mut expected = common(1, "default<O1>");
    expected.push(Request::EmitToFile { tm: 14, path: b"a.o\0".to_vec() });
    assert_eq!(asked, expected);
    assert_eq!(object, None);
    assert!(!buffer.needs_dispose());
}

#[test]
fn each_failure_ends_the_session() {
    let told = [
        (Stage::Context, "failed to create LLVM context"),
        (Stage::Module, "LLVM module verification failed"),
        (Stage::Target, "failed to get LLVM target from triple: why"),
        (Stage::Machine, "failed to create target machine"),
        (Stage::Layout, ""),
        (Stage::Options, "failed to create LLVM pass builder options"),
        (Stage::Passes, "failed to run LLVM optimization passes: why"),
        (Stage::Emit, "failed to emit object file: why"),
        (Stage::Copy, ""),
        (Stage::JitBuilder, "failed to create LLVM JIT builder"),
        (Stage::Jit, "failed to create LLVM JIT: why"),
        (Stage::AddObject, "failed to add object file to LLVM JIT: why"),
        (Stage::Lookup, "failed to lookup main function in LLVM JIT: why"),
        (Stage::Call, ""),
        (Stage::DisposeJit, "failed to dispose LLVM JIT: why"),
    ];
    for (n, (stage, message)) in told.into_iter().enumerate() {
        let session = after(Session::compile(&[], &OptLevel::O0, true, true), n);
        assert_eq!(session.stage, stage);
        match session.advance(failing()) {
            Verdict::Failed(error, _) => assert_eq!(error.message(), message),
            Verdict::Go(_) => assert_eq!(message, ""),
            Verdict::Finished(_, _) => panic!("it is not over"),
        }
    }
}

#[test]
fn failures_without_a_word() {
    let session = after(Session::compile(&[], &OptLevel::O0, true, true), 2);
    match session.advance(silent()) {
        Verdict::Failed(error, _) => assert_eq!(
            error.message(),
            "failed to get LLVM target from triple: unknown LLVM error"
        ),
        _ => panic!("it has failed"),
    }
    let session = after(Session::compile(&[], &OptLevel::O0, true, true), 7);
    match session.advance(silent()) {
        Verdict::Failed(error, _) => {
            assert_eq!(error.message(), "failed to emit object file: unknown LLVM error");
        }
        _ => panic!("it has failed"),
    }
}

#[test]
fn no_target_for_a_file() {
    let session = after(Session::compile_to_object(&[], "a.o", &OptLevel::O0), 2);
    match session.advance(failing()) {
        Verdict::Failed(error, _) => {
            assert_eq!(error.cause, Cause::FileTarget);
            assert_eq!(error.message(), "failed to get target from triple: why");
        }
        _ => panic!("it has failed"),
    }
}

#[test]
fn an_unbalanced_program_fails_once_there_is_a_context() {
    let session = Session::compile(&[Op::LoopEnd], &OptLevel::O0, false, true);
    match session.advance(reply(1)) {
        Verdict::Failed(error, _) => assert_eq!(error.message(), "internal loop mismatch"),
        _ => panic!("it has failed"),
    }
    let session = Session::compile(&[Op::LoopStart], &OptLevel::O0, false, true);
    match session.advance(reply(1)) {
        Verdict::Failed(error, _) => assert_eq!(error.message(), "internal loop stack not empty"),
        _ => panic!("it has failed"),
    }
    let session = Session::compile(&[Op::LoopEnd], &OptLevel::O0, false, true);
    match session.advance(reply(0)) {
        Verdict::Failed(error, _) => assert_eq!(error.message(), "failed to create LLVM context"),
        _ => panic!("it has failed"),
    }
}

#[test]
fn a_path_with_a_zero_byte_is_refused_before_anything_is_emitted() {
    let mut session = Session::compile_to_object(&[], "a\0.o", &OptLevel::O0);
    for k in 0..7 {
        assert!(!matches!(session.request(), Request::EmitToFile { .. }));
        match session.advance(reply(11 + k)) {
            Verdict::Go(next) => session = next,
            Verdict::Failed(error, buffer) => {
                assert_eq!(k, 6);
                assert_eq!(error.cause, Cause::InteriorNul);
                assert_eq!(error.message(), "string contains interior NUL: \"a\\0.o\"");
                assert!(!buffer.needs_dispose());
                return;
            }
            Verdict::Finished(_, _) => panic!("nothing was emitted"),
        }
    }
    panic!("it has failed");
}

#[test]
fn the_passes_are_judged_before_the_path() {
    let session = after(Session::compile_to_object(&[], "\0", &OptLevel::O0), 6);
    match session.advance(failing()) {
        Verdict::Failed(error, _) => assert_eq!(error.cause, Cause::Passes),
        _ => panic!("it has failed"),
    }
}

#[test]
fn a_buffer_is_left_over_when_its_use_fails() {
    // Emitting fails, but has left a buffer.
    let session = after(Session::compile(&[], &OptLevel::O0, true, false), 7);
    match session.advance(Reply { handle: 5, ..silent() }) {
        Verdict::Failed(_, buffer) => assert!(buffer.needs_dispose()),
        _ => panic!("it has failed"),
    }
    // There is no JIT compiler.
    let session = after(Session::compile(&[], &OptLevel::O0, true, false), 9);
    match session.advance(failing()) {
        Verdict::Failed(_, buffer) => assert!(buffer.needs_dispose()),
        _ => panic!("it has failed"),
    }
    // The JIT compiler has the buffer.
    let session = after(Session::compile(&[], &OptLevel::O0, true, false), 10);
    match session.advance(failing()) {
        Verdict::Failed(_, buffer) => assert!(!buffer.needs_dispose()),
        _ => panic!("it has failed"),
    }
}

#[test]
fn an_unbalanced_program_is_never_emitted() {
    for session in [
        Session::compile(&[Op::LoopEnd], &OptLevel::O0, true, true),
        Session::compile(&[Op::LoopStart], &OptLevel::O0, false, false),
        Session::compile_to_object(&[Op::LoopEnd], "a.o", &OptLevel::O0),
    ] {
        assert_eq!(session.request(), Request::CreateContext);
        assert!(matches!(session.advance(reply(1)), Verdict::Failed(_, _)));
    }
}
