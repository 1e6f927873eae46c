//! An emulator for the 32-bit "Universal Machine": a register machine whose
//! programs are sequences of big-endian 32-bit words.
//!
//! The library holds the whole execution engine: the loader, the memory bank
//! with its identifier allocator, and a single-step interpreter whose I/O is
//! handed back to the caller as actions.
pub mod bank;
pub mod fault;
pub mod loader;
pub mod machine;
