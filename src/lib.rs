//! Bookmarks for directories: a name→path table kept in a flat text file,
//! and the single action that one invocation performs on it.

pub mod actions;
pub mod config;
pub mod store;

pub use actions::{run, DeleteBookmark, Help, List, Outcome, Query, RemoveDB, Save, ShowBookmark};
pub use config::{Config, Flags};
pub use store::Bookmarks;
