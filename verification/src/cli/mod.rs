//! The commands of the program: what they decide and what they report.
pub mod accept;
pub mod accept_group;
pub mod collect;
pub mod compare;
pub mod error;
pub mod groups;
pub mod human_review;
pub mod labels;
pub mod laws;
pub mod orchestrate;
pub mod output;
pub mod preview;
pub mod records;
pub mod review;
pub mod runs;
pub mod targets;
pub mod totals;
