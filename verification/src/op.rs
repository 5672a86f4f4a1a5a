//! The instructions that a program is made of.
use vstd::prelude::*;

verus! {

/// One target of an [`Op::AddScaled`]: the cell at `offset` from the current
/// one gains `factor` times the current cell.
#[derive(Clone, Copy, Debug, PartialEq, Eq)]
pub struct CellUpdate {
    pub offset: i64,
    pub factor: i32,
}

/// An instruction.
#[derive(Debug, PartialEq, Eq)]
pub enum Op {
    /// Moves the pointer.
    PtrAdd(i64),
    /// Adds to the current cell.
    CellAdd(i32),
    /// Sets the current cell to zero.
    ClearCell,
    /// Adds multiples of the current cell to other cells, then clears it.
    AddScaled(Vec<CellUpdate>),
    /// Writes the current cell.
    Output,
    /// Reads into the current cell.
    Input,
    /// Skips past the matching `LoopEnd` if the current cell is zero.
    LoopStart,
    /// Goes back to the matching `LoopStart`.
    LoopEnd,
}

/// What an [`Op`] says, with the updates of `AddScaled` as a sequence.
#[verifier::ext_equal]
pub enum SpecOp {
    PtrAdd(i64),
    CellAdd(i32),
    ClearCell,
    AddScaled(Seq<CellUpdate>),
    Output,
    Input,
    LoopStart,
    LoopEnd,
}

impl DeepView for Op {
    type V = SpecOp;

    open spec fn deep_view(&self) -> SpecOp {
        match *self {
            Op::PtrAdd(delta) => SpecOp::PtrAdd(delta),
            Op::CellAdd(delta) => SpecOp::CellAdd(delta),
            Op::ClearCell => SpecOp::ClearCell,
            Op::AddScaled(updates) => SpecOp::AddScaled(updates@),
            Op::Output => SpecOp::Output,
            Op::Input => SpecOp::Input,
            Op::LoopStart => SpecOp::LoopStart,
            Op::LoopEnd => SpecOp::LoopEnd,
        }
    }
}

impl Clone for Op {
    fn clone(&self) -> (res: Self)
        ensures
            res.deep_view() == self.deep_view(),
    {
        match self {
            Op::PtrAdd(delta) => Op::PtrAdd(*delta),
            Op::CellAdd(delta) => Op::CellAdd(*delta),
            Op::ClearCell => Op::ClearCell,
            Op::AddScaled(updates) => {
                let copy = updates.clone();
                assert(copy@ =~= updates@);
                Op::AddScaled(copy)
            },
            Op::Output => Op::Output,
            Op::Input => Op::Input,
            Op::LoopStart => Op::LoopStart,
            Op::LoopEnd => Op::LoopEnd,
        }
    }
}

} // verus!
