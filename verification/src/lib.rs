//! Conversion of a `/var` tree into systemd `tmpfiles.d` declarations.
//!
//! The library holds the rules: the text codec for `tmpfiles.d` paths, the
//! parser and formatter for entry lines, the bookkeeping of earlier
//! generated files, and the state machine that walks a tree and decides what
//! to declare and what to remove. Touching the filesystem is left to the
//! caller, which performs the actions the state machine asks for.
pub mod error;
pub mod text;
pub mod escape;
pub mod unescape;
pub mod entry;
pub mod path;
pub mod lines;
pub mod generation;
pub mod existing;
pub mod scan;
pub mod walk;
pub mod tree;
pub mod run;
