//! A small interactive command interpreter: a quote- and escape-aware
//! tokenizer, a redirection-operator splitter, a command resolver that maps
//! word lists to builtins or external executables, and an executor that
//! applies resolved commands to a mutable session context.
//!
//! All input/output (terminal handling, directory scanning, file creation,
//! process spawning) is left to the surrounding program; this library does the
//! parsing, resolution and bookkeeping on plain values.

pub mod args;
pub mod autocomplete;
pub mod command;
pub mod operators;
pub mod parser;
pub mod paths;
pub mod state;
pub mod text;
