//! A byte-coded tape-machine toolkit: a compiler that folds raw source bytes
//! into a compact instruction stream with resolved jump targets, an executor
//! that steps compiled programs, a direct interpreter with lazily memoized
//! jump resolution and an optional undo log, and a builder for emitting
//! source programs.

pub mod source;
pub mod tape;
pub mod backend;
pub mod compiler;
pub mod executor;
pub mod interpreter;
