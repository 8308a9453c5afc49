//! A small command-line task manager: an ordered store of numbered tasks,
//! a date normalizer, a single-line interactive editor, and a durability
//! protocol that persists the store as a human-readable document.
//!
//! Everything in this crate is verified; terminal and file-system work is
//! left to the surrounding binary, which drives the protocols defined here.

pub mod args;
pub mod codec;
pub mod completions;
pub mod dates;
pub mod driver;
pub mod editor;
pub mod numbers;
pub mod persist;
pub mod store;
pub mod task;
pub mod text;
pub mod wrap;

pub use args::parse_edit_args;
pub use args::parse_flexible_ids;
pub use dates::Date;
pub use store::StoreError;
pub use store::TaskManager;
pub use task::Task;
pub use text::chars_str;
pub use text::push_char;
pub use text::str_chars;
