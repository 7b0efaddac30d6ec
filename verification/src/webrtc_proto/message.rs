//! The numbers that stand for the flags of a message.
use vstd::prelude::*;

verus! {

/// A flag, in the order of the numbers 0 to 3 that the schema gives them.
#[derive(Debug, Clone, Copy, PartialEq, Eq, Structural)]
pub enum Flag {
    Fin,
    StopSending,
    ResetStream,
    FinAck,
}

impl Flag {
    /// The number that stands for the flag.
    pub open spec fn spec_number(self) -> i32 {
        match self {
            Flag::Fin => 0,
            Flag::StopSending => 1,
            Flag::ResetStream => 2,
            Flag::FinAck => 3,
        }
    }

    /// The number that stands for the flag.
    pub fn number(self) -> (r: i32)
        ensures
            r == self.spec_number(),
    {
        self as i32
    }
}

} // verus!
