//! Checks that a command-line interface declares its subcommands and
//! arguments in a canonical order: subcommands alphabetically; arguments
//! grouped as positional arguments, then flags with a short switch (sorted by
//! that switch, lowercase before uppercase of the same letter), then
//! long-only flags (sorted by name).
//!
//! Two modes share the checks: a command tree built in memory
//! ([`CommandNode`]), walked to any depth, and source text, whose
//! subcommand-set enums are found and checked one by one.
pub mod args;
pub mod laws;
pub mod lex;
pub mod naming;
pub mod order;
pub mod report;
pub mod source;
pub mod tree;
pub mod walk;

pub use args::{ArgGroup, ArgumentSpec};
pub use naming::derived_name;
pub use report::is_sorted;
pub use lex::{tokenize, SourceError, Token};
pub use source::{find_declarations, validate_source, Declaration};
pub use tree::{CommandNode, Violation, ViolationKind};
pub use walk::{first_violation, violations};
