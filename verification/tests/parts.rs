use fastbf::cli::Delivery;
use fastbf::link::{LinkArg, LinkError, LinkStatus};
use fastbf::llvm::error::{
    cstring, with_llvm_error, with_llvm_error_ref, Cause, CompileError, InteriorNul,
};
use fastbf::llvm::ir::{Function, Ty};
use fastbf::llvm::memory_buffer::LLVMMemoryBuffer;
use fastbf::llvm::raw::{init, AsRaw, AsRawMut};
use fastbf::llvm::target::{LLVMTarget, LLVMTargetMachine, LLVMTargetTriple, PassBuilderOptions};
use fastbf::{link_arguments, link_result, Cli, OptLevel};

#[test]
fn codegen_levels() {
    assert_eq!(OptLevel::O0.llvm_codegen_level(), 0);
    assert_eq!(OptLevel::O1.llvm_codegen_level(), 1);
    assert_eq!(OptLevel::O2.llvm_codegen_level(), 2);
    assert_eq!(OptLevel::O3.llvm_codegen_level(), 3);
}

#[test]
fn pass_pipelines() {
    assert_eq!(OptLevel::O0.llvm_pass_pipeline(), "default<O0>");
    assert_eq!(OptLevel::O1.llvm_pass_pipeline(), "default<O1>");
    assert_eq!(OptLevel::O2.llvm_pass_pipeline(), "default<O2>");
    assert_eq!(OptLevel::O3.llvm_pass_pipeline(), "default<O3>");
}

#[test]
fn compiler_flags() {
    assert_eq!(OptLevel::O0.cc_opt_flag(), "-O0");
    assert_eq!(OptLevel::O1.cc_opt_flag(), "-O1");
    assert_eq!(OptLevel::O2.cc_opt_flag(), "-O2");
    assert_eq!(OptLevel::O3.cc_opt_flag(), "-O3");
}

#[test]
fn targets_are_initialised_once() {
    let mut done = false;
    assert!(init(&mut done));
    assert!(!init(&mut done));
    assert!(!init(&mut done));
    assert!(done);
}

#[test]
fn a_new_buffer_is_not_disposed_of() {
    let buffer = LLVMMemoryBuffer::new();
    assert_eq!(buffer.address_of(), 0);
    assert!(!buffer.needs_dispose());
}

#[test]
fn a_filled_buffer_is_disposed_of() {
    let mut buffer = LLVMMemoryBuffer::new();
    buffer.fill(4096);
    assert_eq!(buffer.address_of(), 4096);
    assert!(buffer.needs_dispose());
}

#[test]
fn a_buffer_given_away_is_not_disposed_of() {
    let mut buffer = LLVMMemoryBuffer::new();
    buffer.fill(4096);
    let raw: usize = buffer.as_raw_mut();
    assert_eq!(raw, 4096);
    assert_eq!(buffer.address_of(), 4096);
    assert!(!buffer.needs_dispose());
    buffer.fill(8192);
    assert!(!buffer.needs_dispose());
}

#[test]
fn statuses_are_read() {
    assert_eq!(with_llvm_error(0, None), Ok(()));
    assert_eq!(with_llvm_error(0, Some(String::from("ignored"))), Ok(()));
    assert_eq!(with_llvm_error(1, Some(String::from("no"))), Err(String::from("no")));
    assert_eq!(with_llvm_error(-7, None), Err(String::from("unknown LLVM error")));
}

#[test]
fn error_objects_are_read() {
    assert_eq!(with_llvm_error_ref(None), Ok(()));
    assert_eq!(with_llvm_error_ref(Some(String::from("no"))), Err(String::from("no")));
    assert_eq!(with_llvm_error_ref(Some(String::new())), Err(String::new()));
}

#[test]
fn c_strings_end_in_zero() {
    assert_eq!(cstring(""), Ok(vec![0]));
    assert_eq!(cstring("idx"), Ok(vec![b'i', b'd', b'x', 0]));
    assert_eq!(cstring("\u{e9}"), Ok(vec![0xc3, 0xa9, 0]));
}

#[test]
fn c_strings_hold_no_zero() {
    let error = cstring("a\0b").unwrap_err();
    assert_eq!(error, InteriorNul { quoted: String::from("\"a\\0b\"") });
    assert_eq!(error.message(), "string contains interior NUL: \"a\\0b\"");
    assert_eq!(
        cstring("\0").unwrap_err().message(),
        "string contains interior NUL: \"\\0\""
    );
}

#[test]
fn errors_are_told() {
    let plain = CompileError { cause: Cause::Context, detail: None };
    assert_eq!(plain.message(), "failed to create LLVM context");
    let detailed = CompileError { cause: Cause::Emit, detail: Some(String::from("disk")) };
    assert_eq!(detailed.message(), "failed to emit object file: disk");
    let empty = CompileError { cause: Cause::Jit, detail: Some(String::new()) };
    assert_eq!(empty.message(), "failed to create LLVM JIT: ");
}

#[test]
fn every_cause_has_its_text() {
    let texts = [
        (Cause::Context, "failed to create LLVM context"),
        (Cause::LoopMismatch, "internal loop mismatch"),
        (Cause::LoopStackNotEmpty, "internal loop stack not empty"),
        (Cause::Verification, "LLVM module verification failed"),
        (Cause::Target, "failed to get LLVM target from triple"),
        (Cause::FileTarget, "failed to get target from triple"),
        (Cause::TargetMachine, "failed to create target machine"),
        (Cause::PassOptions, "failed to create LLVM pass builder options"),
        (Cause::Passes, "failed to run LLVM optimization passes"),
        (Cause::InteriorNul, "string contains interior NUL"),
        (Cause::Emit, "failed to emit object file"),
        (Cause::JitBuilder, "failed to create LLVM JIT builder"),
        (Cause::Jit, "failed to create LLVM JIT"),
        (Cause::AddObject, "failed to add object file to LLVM JIT"),
        (Cause::Lookup, "failed to lookup main function in LLVM JIT"),
        (Cause::DisposeJit, "failed to dispose LLVM JIT"),
    ];
    for (cause, text) in texts {
        assert_eq!(cause.text(), text);
    }
}

#[test]
fn a_target_is_found_or_not() {
    let target = LLVMTarget::from_triple(0, None, 77).unwrap();
    assert_eq!(target.as_raw(), 77);
    let error = LLVMTarget::from_triple(1, Some(String::from("no such cpu")), 0).unwrap_err();
    assert_eq!(error.message(), "failed to get LLVM target from triple: no such cpu");
    let error = LLVMTarget::from_triple(1, None, 0).unwrap_err();
    assert_eq!(error.message(), "failed to get LLVM target from triple: unknown LLVM error");
}

#[test]
fn a_target_machine_is_made_or_not() {
    let arguments = LLVMTargetMachine::arguments("generic", "");
    assert_eq!(arguments, Ok((b"generic\0".to_vec(), b"\0".to_vec())));
    assert_eq!(LLVMTargetMachine::new(&arguments, 5).unwrap().as_raw(), 5);
    assert_eq!(
        LLVMTargetMachine::new(&arguments, 0).unwrap_err().message(),
        "failed to create target machine"
    );
}

#[test]
fn a_target_machine_takes_no_zero_bytes() {
    let arguments = LLVMTargetMachine::arguments("a\0", "b\0");
    assert_eq!(
        LLVMTargetMachine::new(&arguments, 5).unwrap_err().message(),
        "string contains interior NUL: \"a\\0\""
    );
    let arguments = LLVMTargetMachine::arguments("a", "b\0");
    assert_eq!(
        LLVMTargetMachine::new(&arguments, 5).unwrap_err().message(),
        "string contains interior NUL: \"b\\0\""
    );
}

#[test]
fn pass_options_are_made_or_not() {
    assert_eq!(PassBuilderOptions::new(6).unwrap().as_raw(), 6);
    assert_eq!(
        PassBuilderOptions::new(0).unwrap_err().message(),
        "failed to create LLVM pass builder options"
    );
}

#[test]
fn a_triple_is_where_it_is() {
    assert_eq!(LLVMTargetTriple::new(9).as_raw(), 9);
}

#[test]
fn functions_of_a_module() {
    assert_eq!(Function::Putchar.name(), "putchar");
    assert_eq!(Function::Getchar.name(), "getchar");
    assert_eq!(Function::Main.name(), "main");
    assert_eq!(Function::Putchar.params(), vec![Ty::I32]);
    assert_eq!(Function::Getchar.params(), vec![]);
    assert_eq!(Function::Main.params(), vec![]);
}

#[test]
fn arguments_for_linking() {
    assert_eq!(
        link_arguments("a.o", "a", &OptLevel::O2),
        vec![
            LinkArg::Path("a.o"),
            LinkArg::Flag("-o"),
            LinkArg::Path("a"),
            LinkArg::Flag("-O2")
        ]
    );
}

#[test]
fn linking_succeeds_or_not() {
    assert!(link_result(LinkStatus::Success).is_ok());
    let error = link_result(LinkStatus::NotStarted).unwrap_err();
    assert!(matches!(error, LinkError::NotStarted));
    assert_eq!(error.message(), "failed to invoke system C compiler (cc)");
    let error = link_result(LinkStatus::Failure(String::from("exit status: 1"))).unwrap_err();
    assert_eq!(error.message(), "linker failed with status exit status: 1");
}

fn cli(output: Option<&'static str>, emit_obj: bool) -> Cli<&'static str> {
    Cli {
        input: "a.bf",
        output,
        emit_obj,
        opt: OptLevel::O0,
        run: false,
        cc: String::from("cc"),
    }
}

#[test]
fn an_executable_needs_the_object_code() {
    assert!(cli(Some("a"), false).needs_buffer());
    assert!(!cli(None, true).needs_buffer());
}

#[test]
fn the_object_file_is_removed_unless_it_is_wanted() {
    assert_eq!(
        cli(Some("a"), false).deliveries(true),
        vec![Delivery::WriteObject, Delivery::Link, Delivery::RemoveObject]
    );
    assert_eq!(
        cli(Some("a"), true).deliveries(true),
        vec![Delivery::WriteObject, Delivery::Link]
    );
}

#[test]
fn without_output_nothing_is_delivered() {
    assert_eq!(cli(None, false).deliveries(true), vec![]);
    assert_eq!(cli(None, true).deliveries(true), vec![]);
    assert_eq!(cli(Some("a"), false).deliveries(false), vec![]);
}
