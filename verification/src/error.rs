//! The ways in which a call into the kernel fails.

use vstd::prelude::*;

verus! {

/// Why an accumulation was refused. Nothing is accumulated and no counts are
/// returned in either case.
#[derive(Clone, Copy, Debug, PartialEq, Eq, Structural)]
pub enum KernelError {
    /// A histogram needs at least one bin.
    InvalidBinCount,
    /// More scratch elements were asked for than the scratch buffer holds.
    ScratchExceeded,
}

impl KernelError {
    /// The message that goes with the error.
    pub fn message(&self) -> (text: &'static str)
        ensures
            text@ == match *self {
                KernelError::InvalidBinCount => "bin_count must be greater than zero"@,
                KernelError::ScratchExceeded => "scratch length exceeded"@,
            },
    {
        match self {
            KernelError::InvalidBinCount => "bin_count must be greater than zero",
            KernelError::ScratchExceeded => "scratch length exceeded",
        }
    }
}

} // verus!
