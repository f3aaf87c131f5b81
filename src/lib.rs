//! Directory bookmarks: named targets kept in a plain-text store, and the text
//! that an interactive shell evaluates to jump to them.

pub mod order;
pub mod path;
pub mod target;
pub mod shell;
pub mod laws;
