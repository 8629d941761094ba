//! The system-call layer: one verified function per kernel entry point.
//! Argument marshaling (user pointers, registers) is the dispatch
//! boundary's concern; these functions take and return plain values.

pub mod process;
pub mod sync;
