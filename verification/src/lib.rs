//! An interpreter for a minimal tape-based language: eight control
//! characters drive pointer movement, cell mutation, byte input/output,
//! and bracket-delimited loops over a fixed 30,000-cell memory.
//!
//! The loader (`runtime::parse`) validates bracket structure in one pass
//! and resolves every loop's jump target ahead of execution; the engine
//! (`runtime::Runtime`) then walks the flat instruction sequence with a
//! runtime-checked pointer, writing cells to a caller-supplied output
//! port and reading them from a caller-supplied input port.

pub mod error;
pub mod io;
pub mod runtime;
