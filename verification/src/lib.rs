//! File-level overlay lanes.
//!
//! A repo has one base, the files of a worktree, and any number of lanes on top of it. A lane holds
//! for each path that it touched a list of byte operations against the base, or that the file is
//! deleted there. Lanes do not see each other. Operations of a lane become part of the base by
//! promotion; other lanes then keep what they showed or move along.
//!
//! The state of a lane and what is done with it are stated over the mathematical values
//! [`repo::Repo`], [`lane_file::File`] and [`ops::Op`]. What holds across operations is proved in
//! [`laws`] and beside the parts that it speaks of.
pub mod bytes;
pub mod cli;
pub mod combine;
pub mod commit;
pub mod commit_laws;
pub mod conflict;
pub mod conflict_laws;
pub mod demo;
pub mod diff;
pub mod difference;
pub mod fingerprint;
pub mod lane_file;
pub mod laws;
pub mod lists;
pub mod materialize;
pub mod mount_laws;
pub mod numbers;
pub mod op_id;
pub mod ops;
pub mod order_key;
pub mod os_path;
pub mod path_label;
pub mod path_laws;
pub mod projection;
pub mod promotion;
pub mod promotion_laws;
pub mod rebase;
pub mod rebase_laws;
pub mod replacement_laws;
pub mod repo;
pub mod repo_laws;
pub mod sorting;
pub mod storage;
pub mod text;
pub mod text_map;
pub mod types;
pub mod upkeep;
pub mod utf8_text;
pub mod vfs;
pub mod vfs_laws;
pub mod virtual_exec;
pub mod whole_lane;
pub mod winfsp_mount;
pub mod write_laws;

pub use cli::error::CliError;
pub use commit::PromotedFile;
pub use demo::AppState;
pub use projection::SourceProjection;
pub use repo::LaneRepo;
pub use types::{
    ensure_user_lane, BaseFingerprint, BaseStorageSnapshot, DecodeError, FileOpStorageSnapshot,
    FilePath, LaneEntryStorageSnapshot, LaneError, LaneFileStorageSnapshot, LaneId, LaneOpDetail,
    LaneOpKind, LaneOpSummary, LaneRepoStorageSnapshot, LaneRunState, LaneTextPreview,
};
pub use winfsp_mount::MountOptions;
