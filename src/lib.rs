//! A managed object heap with mark-and-sweep collection, local and shared
//! object cells, call frames with operand stacks, and a small runtime that
//! invokes methods and hands their results back to the caller.

pub mod address;
pub mod error;
pub mod shared;
pub mod frame;
pub mod payload;
pub mod heap;
pub mod runtime;
pub mod thread;
pub mod objects;
pub mod laws;
