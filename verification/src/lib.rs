//! Runtime core of an incremental in-process assembler.
//!
//! Code is appended to a staging buffer together with symbolic label
//! references; `commit` resolves the references into concrete relative
//! displacements and publishes the bytes into a shared executable mapping.
//! The mapping is never writable and executable at the same time: the shared
//! cell only ever holds the executable state, writable values exist only as
//! the assembler's private copies of its program image, and every
//! publication happens under the exclusive write lock.
use vstd::prelude::*;

pub mod assembler;
pub mod buffer;
pub mod disp;
pub mod laws;
pub mod model;
pub mod tables;

pub use assembler::Assembler;
pub use assembler::AssemblyModifier;
pub use assembler::Executor;
pub use assembler::UncommittedModifier;
pub use assembler::MMAP_INIT_SIZE;
pub use buffer::ExecutableBuffer;
pub use buffer::MutableBuffer;

verus! {

/// An absolute byte position in the assembled program image, measured from
/// the start of the executable mapping. Stable across buffer growth.
#[derive(Clone, Copy, PartialEq, Eq, Structural, Debug)]
pub struct AssemblyOffset(pub usize);

/// An opaque handle for a slot in the dynamic-label table.
#[derive(Clone, Copy, PartialEq, Eq, Structural, Debug)]
pub struct DynamicLabel(pub usize);

/// The recoverable failures of the label and patch bookkeeping.
#[derive(Clone, Copy, PartialEq, Eq, Structural, Debug)]
pub enum AsmError {
    /// A global or dynamic label was defined twice.
    DuplicateLabel,
    /// A reference could not be resolved to a defined label.
    UnknownLabel,
    /// A modifier's offset assertion did not hold.
    OffsetCheckFailed,
}

} // verus!
