//! A buffer that LLVM has filled.
use vstd::prelude::*;

use crate::llvm::raw::{Address, AsRawMut};

verus! {

/// A buffer of LLVM's, which has to be disposed of unless it was given away.
#[derive(Debug, PartialEq, Eq)]
pub struct LLVMMemoryBuffer {
    buf: Address,
    taken_marker: bool,
}

/// What there is to say of a [`LLVMMemoryBuffer`].
#[verifier::ext_equal]
pub struct SpecBuffer {
    /// Where the buffer is; zero if there is none.
    pub address: Address,
    /// The buffer has been given away.
    pub taken: bool,
}

impl SpecBuffer {
    /// The buffer is still to be disposed of: there is one, and it was not
    /// given away.
    pub open spec fn owed(self) -> bool {
        !self.taken && self.address != 0
    }
}

impl View for LLVMMemoryBuffer {
    type V = SpecBuffer;

    closed spec fn view(&self) -> SpecBuffer {
        SpecBuffer { address: self.buf, taken: self.taken_marker }
    }
}

impl LLVMMemoryBuffer {
    /// No buffer yet.
    pub fn new() -> (res: Self)
        ensures
            res@ == (SpecBuffer { address: 0, taken: false }),
    {
        LLVMMemoryBuffer { buf: 0, taken_marker: false }
    }

    /// Notes where LLVM has put the buffer.
    pub fn fill(&mut self, buf: Address)
        ensures
            final(self)@ == (SpecBuffer { address: buf, ..old(self)@ }),
    {
        self.buf = buf;
    }

    /// Where the buffer can be read.
    pub fn address_of(&self) -> (res: Address)
        ensures
            res == self@.address,
    {
        self.buf
    }

    /// Whether the buffer is still to be disposed of.
    pub fn needs_dispose(&self) -> (res: bool)
        ensures
            res == self@.owed(),
    {
        !self.taken_marker && self.buf != 0
    }
}

impl AsRawMut<Address> for LLVMMemoryBuffer {
    open spec fn given_away(before: &Self, after: &Self, res: Address) -> bool {
        &&& res == before@.address
        &&& after@ == SpecBuffer { taken: true, ..before@ }
    }

    fn as_raw_mut(&mut self) -> (res: Address) {
        self.taken_marker = true;
        self.buf
    }
}

/// A buffer that was given away is not disposed of, also when it is filled
/// again.
pub proof fn law_given_away_is_not_owed(
    before: LLVMMemoryBuffer,
    after: LLVMMemoryBuffer,
    res: Address,
    refilled: Address,
)
    requires
        LLVMMemoryBuffer::given_away(&before, &after, res),
    ensures
        !after@.owed(),
        !(SpecBuffer { address: refilled, ..after@ }).owed(),
{
}

} // verus!
