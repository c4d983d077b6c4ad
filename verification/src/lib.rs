//! Verified core of an HMP monitor for QEMU that speaks QMP: expression
//! evaluation, completion logic, output formatting and image framing.

pub mod arg_completion;
pub mod args;
pub mod commands;
pub mod completer;
pub mod expr;
pub mod text;
pub mod filenames;
pub mod format;
pub mod discover;
pub mod generated_registry;
pub mod highlighter;
pub mod hmp_completer;
pub mod json;
pub mod listing;
pub mod prompt;
pub mod qmp;
pub mod qom_completion;
pub mod repl;
pub mod schema;
pub mod spans;
pub mod terminal_image;
