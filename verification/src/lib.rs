//! Link detection over terminal snapshots and selection of OpenCode sessions
//! for a worktree.

pub mod unicode;
pub mod terminal_links;
pub mod session_files;
pub mod opencode;
