//! Running a command in the worktree itself: the lane is laid over it, and what the command
//! changed is taken into the lane before the worktree is put back as it was.
pub mod laws;
pub mod restore;
pub mod run;
pub mod snapshot;
pub mod watch;
