//! What the command line asks for.
use vstd::prelude::*;

use crate::llvm::opt_level::OptLevel;

verus! {

/// The command line. `P` is how paths are written.
#[derive(Debug)]
pub struct Cli<P> {
    /// The source file.
    pub input: P,
    /// The executable to make.
    pub output: Option<P>,
    /// Whether to keep the object file.
    pub emit_obj: bool,
    /// How much to optimise.
    pub opt: OptLevel,
    /// Whether to run the program.
    pub run: bool,
    /// The C compiler.
    pub cc: String,
}

/// What is done with object code.
#[derive(Clone, Copy, Debug, PartialEq, Eq, Structural)]
pub enum Delivery {
    /// Writes it to the object file.
    WriteObject,
    /// Links the object file to the executable.
    Link,
    /// Removes the object file, if it can be removed.
    RemoveObject,
}

impl<P> Cli<P> {
    /// The object code is wanted, and not only run.
    pub open spec fn wants_object(&self) -> bool {
        self.output is Some
    }

    /// Whether the object code is wanted, and not only run.
    pub fn needs_buffer(&self) -> (res: bool)
        ensures
            res == (self.output is Some),
            res == self.wants_object(),
    {
        self.output.is_some()
    }

    /// What is to be done with the object code, if there is any; a failure ends
    /// it.
    pub open spec fn spec_deliveries(&self, has_object: bool) -> Seq<Delivery> {
        if self.output is Some && has_object {
            if self.emit_obj {
                seq![Delivery::WriteObject, Delivery::Link]
            } else {
                seq![Delivery::WriteObject, Delivery::Link, Delivery::RemoveObject]
            }
        } else {
            seq![]
        }
    }

    /// What is to be done with the object code, if there is any; a failure ends
    /// it.
    pub fn deliveries(&self, has_object: bool) -> (res: Vec<Delivery>)
        ensures
            res@ == self.spec_deliveries(has_object),
    {
        let mut steps: Vec<Delivery> = Vec::new();
        if self.output.is_some() && has_object {
            steps.push(Delivery::WriteObject);
            steps.push(Delivery::Link);
            if !self.emit_obj {
                steps.push(Delivery::RemoveObject);
            }
        }
        assert(steps@ =~= self.spec_deliveries(has_object));
        steps
    }
}

/// Whenever an executable was asked for and there is object code, the object file
/// is written, then linked, and then removed if and only if it was not to be
/// kept. Nothing is done otherwise. No other option plays a part.
pub proof fn law_executable_is_delivered<P>(cli: Cli<P>, has_object: bool)
    ensures
        ({
            let steps = cli.spec_deliveries(has_object);
            &&& steps.contains(Delivery::WriteObject) <==> cli.output is Some && has_object
            &&& steps.contains(Delivery::Link) <==> cli.output is Some && has_object
            &&& steps.contains(Delivery::RemoveObject) <==> cli.output is Some && has_object
                && !cli.emit_obj
            &&& steps.len() > 0 ==> steps[0] == Delivery::WriteObject
            &&& steps.len() > 1 ==> steps[1] == Delivery::Link
            &&& steps.len() > 2 ==> steps[2] == Delivery::RemoveObject
            &&& steps.len() <= 3
        }),
{
    let steps = cli.spec_deliveries(has_object);
    if cli.output is Some && has_object {
        assert(steps[0] == Delivery::WriteObject);
        assert(steps[1] == Delivery::Link);
        if !cli.emit_obj {
            assert(steps[2] == Delivery::RemoveObject);
        }
    }
}

/// The object code is wanted if and only if an executable was asked for, whether
/// or not the program is run; and it is then delivered.
pub proof fn law_object_is_wanted_for_an_executable<P, Q>(a: Cli<P>, b: Cli<Q>)
    ensures
        a.wants_object() <==> a.output is Some,
        (a.output is Some <==> b.output is Some) ==> a.wants_object() == b.wants_object(),
        a.wants_object() <==> a.spec_deliveries(true).contains(Delivery::Link),
        a.spec_deliveries(false).len() == 0,
{
    law_executable_is_delivered(a, true);
}

/// Two command lines that agree on whether there is an output, and on whether the
/// object file is kept, deliver alike.
pub proof fn law_deliveries_depend_on_output_alone<P, Q>(a: Cli<P>, b: Cli<Q>, has_object: bool)
    requires
        a.output is Some <==> b.output is Some,
        a.emit_obj == b.emit_obj,
    ensures
        a.spec_deliveries(has_object) == b.spec_deliveries(has_object),
{
}

} // verus!
