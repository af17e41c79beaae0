use vstd::prelude::*;

verus! {

/// Every failure that the heap and the runtime report.
#[derive(Debug, Clone, Copy, PartialEq, Eq, Structural)]
pub enum Error {
    /// The object is of another kind than the one asked for.
    TypeMismatch,
    /// The object is neither a method nor a shared method.
    NotCallable,
    /// The payload refuses to become shared.
    NotSharable,
    /// A local object was expected, a shared one was found.
    ExpectLocal,
    /// A shared object was expected, a local one was found.
    ExpectShared,
    /// The address names no slot of this heap.
    InvalidAddress,
    /// The heap is full and a collection freed nothing.
    OutOfMemory,
    /// A read and a write would overlap.
    BorrowViolated,
    /// The operand stack holds fewer entries than asked for.
    ExhaustedFrame,
    /// The current frame has no parent.
    NoParentFrame,
    /// The join was already taken.
    JoinConsumed,
}

} // verus!
