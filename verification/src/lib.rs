//! Configuration resolution for a multi-tool runtime version manager.
//!
//! Given the configuration files that apply to a working directory, in the
//! order in which they were discovered, this crate merges them into one view:
//! tool aliases, environment directives, tasks and plugin repositories.
//!
//! The crate reads no file and asks no tool: its callers do, and hand it
//! what they found as plain values. Every function is verified against the
//! contract written on it; the few functions of other crates that it calls
//! are listed in `bindings` with what is taken for granted about them.

pub mod aliases;
pub mod assoc;
pub mod bindings;
pub mod config;
pub mod environment;
pub mod keyed;
pub mod model;
pub mod order;
pub mod paths;
pub mod registry;
pub mod seqs;
pub mod settings;
pub mod tasks;
pub mod text;
