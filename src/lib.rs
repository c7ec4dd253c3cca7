//! Copies named icon states from one DMI icon file into another.
//!
//! The library holds the decisions of the tool: reading its command line in
//! either of its two forms, and merging the requested states of a source file
//! into a destination file.

pub mod args;
pub mod merge;
pub mod text;

pub use args::{ArgsError, DmiCopyArgs, ParseMode};
pub use text::parse_state_arg;
pub use merge::{find_state, merge_one, merge_states, select_requested, MergeReport, Outcome, StateEntry};
