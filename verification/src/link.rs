//! From object code to an executable.
use vstd::prelude::*;
use vstd::string::StringExecFns;

use crate::llvm::opt_level::OptLevel;

verus! {

/// An argument of the C compiler.
#[derive(Debug, PartialEq, Eq)]
pub enum LinkArg<P> {
    Path(P),
    Flag(&'static str),
}

/// The C compiler's arguments, as it takes them, for linking `object_path` to
/// `output_path`.
pub open spec fn spec_link_arguments<P>(object_path: P, output_path: P, opt: OptLevel) -> Seq<
    LinkArg<P>,
> {
    seq![
        LinkArg::Path(object_path),
        LinkArg::Flag("-o"),
        LinkArg::Path(output_path),
        LinkArg::Flag(opt.opt_flag()),
    ]
}

/// The C compiler's arguments, as it takes them, for linking `object_path` to
/// `output_path`.
pub fn link_arguments<P>(object_path: P, output_path: P, opt_level: &OptLevel) -> (res: Vec<
    LinkArg<P>,
>)
    ensures
        res@ == seq![
            LinkArg::Path(object_path),
            LinkArg::Flag("-o"),
            LinkArg::Path(output_path),
            LinkArg::Flag(opt_level.opt_flag()),
        ],
        res@ == spec_link_arguments(object_path, output_path, *opt_level),
{
    let mut args: Vec<LinkArg<P>> = Vec::new();
    args.push(LinkArg::Path(object_path));
    args.push(LinkArg::Flag("-o"));
    args.push(LinkArg::Path(output_path));
    args.push(LinkArg::Flag(opt_level.cc_opt_flag()));
    assert(args@ =~= seq![
        LinkArg::Path(object_path),
        LinkArg::Flag("-o"),
        LinkArg::Path(output_path),
        LinkArg::Flag(opt_level.opt_flag()),
    ]);
    args
}

/// How the C compiler ended.
#[derive(Debug)]
pub enum LinkStatus {
    /// It could not be started.
    NotStarted,
    Success,
    /// It failed; with its status, in words.
    Failure(String),
}

/// Why there is no executable.
#[derive(Debug)]
pub enum LinkError {
    NotStarted,
    Failed(String),
}

/// Whether there is an executable.
pub open spec fn spec_link_result(status: LinkStatus) -> Result<(), LinkError> {
    match status {
        LinkStatus::NotStarted => Err(LinkError::NotStarted),
        LinkStatus::Success => Ok(()),
        LinkStatus::Failure(text) => Err(LinkError::Failed(text)),
    }
}

/// Whether there is an executable.
pub fn link_result(status: LinkStatus) -> (res: Result<(), LinkError>)
    ensures
        match status {
            LinkStatus::NotStarted => res == Err::<(), _>(LinkError::NotStarted),
            LinkStatus::Success => res is Ok,
            LinkStatus::Failure(text) => res == Err::<(), _>(LinkError::Failed(text)),
        },
        res == spec_link_result(status),
{
    match status {
        LinkStatus::NotStarted => Err(LinkError::NotStarted),
        LinkStatus::Success => Ok(()),
        LinkStatus::Failure(text) => Err(LinkError::Failed(text)),
    }
}

impl LinkError {
    /// The error as a line of text.
    pub open spec fn spec_message(&self) -> Seq<char> {
        match *self {
            LinkError::NotStarted => "failed to invoke system C compiler (cc)"@,
            LinkError::Failed(status) => "linker failed with status "@ + status@,
        }
    }

    /// The error as a line of text.
    pub fn message(&self) -> (res: String)
        ensures
            res@ == (match *self {
                LinkError::NotStarted => "failed to invoke system C compiler (cc)"@,
                LinkError::Failed(status) => "linker failed with status "@ + status@,
            }),
            res@ == self.spec_message(),
    {
        match self {
            LinkError::NotStarted => "failed to invoke system C compiler (cc)".to_owned(),
            LinkError::Failed(status) => {
                let mut line: String = "linker failed with status ".to_owned();
                line.append(status.as_str());
                line
            },
        }
    }
}

/// The C compiler is given the object file, then the executable behind `-o`, then
/// the flag of the level that was asked for, and nothing else.
pub proof fn law_link_arguments<P>(object_path: P, output_path: P, opt: OptLevel)
    ensures
        ({
            let args = spec_link_arguments(object_path, output_path, opt);
            &&& args.len() == 4
            &&& args[0] == LinkArg::Path(object_path)
            &&& args[1] == LinkArg::<P>::Flag("-o")
            &&& args[2] == LinkArg::Path(output_path)
            &&& opt == OptLevel::O0 ==> args[3] == LinkArg::<P>::Flag("-O0")
            &&& opt == OptLevel::O1 ==> args[3] == LinkArg::<P>::Flag("-O1")
            &&& opt == OptLevel::O2 ==> args[3] == LinkArg::<P>::Flag("-O2")
            &&& opt == OptLevel::O3 ==> args[3] == LinkArg::<P>::Flag("-O3")
        }),
{
}

/// Linking has succeeded if and only if the C compiler was started and ended with
/// success. If it could not be started, that is told; if it failed, its status
/// is, as it was given.
pub proof fn law_link_result(status: LinkStatus)
    ensures
        spec_link_result(status) is Ok <==> status is Success,
        status is NotStarted ==> (spec_link_result(status) matches Err(error)
            && error.spec_message() == "failed to invoke system C compiler (cc)"@),
        status matches LinkStatus::Failure(text) ==> (spec_link_result(status) matches Err(error)
            && error.spec_message() == "linker failed with status "@ + text@),
{
}

} // verus!
