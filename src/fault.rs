//! The conditions that abort a running machine.
use vstd::prelude::*;

verus! {

/// A fatal condition raised by the executing program. None of them can be
/// recovered from: the driver stops the machine and reports it.
#[derive(Debug, Clone, Copy, PartialEq, Eq, Structural)]
pub enum Fault {
    /// An instruction named an array identifier that is not in the bank.
    UnknownArray,
    /// An array index lay at or past the end of the array.
    IndexOutOfBounds,
    /// The program tried to deallocate array 0, the running program.
    FreeProgram,
    /// Division by zero.
    DivisionByZero,
    /// An output instruction held a value above 255.
    OutputOutOfRange,
    /// The instruction pointer lay at or past the end of array 0.
    PcOutOfRange,
    /// Every one of the 2^32 array identifiers is in use.
    OutOfIdentifiers,
}

} // verus!
