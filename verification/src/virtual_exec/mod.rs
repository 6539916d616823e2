//! Running a command in a mounted view of a lane: what the command writes is held beside the lane
//! until the command ends, and is taken into the lane then.
pub mod capture;
pub mod dirty;
pub mod edit;
pub mod edit_laws;
pub mod handles;
pub mod laws;
pub mod nodes;
pub mod session;
pub mod state;
pub mod worker;
