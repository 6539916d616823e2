//! What goes wrong in a command, as users are told.
use vstd::prelude::*;

use crate::types::LaneError;
use crate::vfs;
use crate::vfs::{LaneFsError, LaneFsErrorView};

verus! {

/// Why a command failed.
#[derive(Debug, PartialEq, Eq)]
pub struct CliError {
    message: String,
}

impl View for CliError {
    type V = Seq<char>;

    closed spec fn view(&self) -> Seq<char> {
        self.message@
    }
}

impl CliError {
    /// An error with a message.
    pub fn message(message: &str) -> (r: Self)
        ensures
            r@ == message@,
    {
        CliError { message: message.to_owned() }
    }

    /// What users are told.
    pub fn text(&self) -> (r: &str)
        ensures
            r@ == self@,
    {
        self.message.as_str()
    }

    /// The error of a lane's file tree.
    pub fn from_fs(error: &LaneFsError) -> (r: Self)
        ensures
            r@ == vfs::fs_error_message(error@),
    {
        CliError { message: error.message() }
    }

    /// The error of a lane.
    pub fn from_lane(error: LaneError) -> (r: Self)
        ensures
            r@ == vfs::fs_error_message(LaneFsErrorView::Lane(error@)),
    {
        CliError { message: error.debug_label() }
    }
}

} // verus!
