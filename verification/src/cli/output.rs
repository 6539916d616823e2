//! What reviews report.
use vstd::prelude::*;

use crate::lists;
use crate::lists::{copy_list, copy_opt, Copied};
use crate::sorting;
use crate::text;
use crate::text::copy_texts;
use crate::types::{copy_opt_text, LaneOpSummary, LaneRunState, OpSummaryView, RunStateView};
use crate::vfs;
use crate::vfs::LaneFileChangeStatus;

verus! {

/// What an action does.
#[derive(Clone, Copy, Debug, PartialEq, Eq, Structural)]
pub enum ReviewActionKind {
    Accept,
    Detail,
    Discard,
}

/// Whether an operation conflicts with those of another lane.
#[derive(Clone, Copy, Debug, PartialEq, Eq, Structural)]
pub enum ReviewOpState {
    Clean,
    Conflicted,
}

impl Copied for LaneOpSummary {
    fn copied(&self) -> (r: Self) {
        self.copy()
    }
}

impl Copied for LaneRunState {
    fn copied(&self) -> (r: Self) {
        self.copy()
    }
}

/// A byte string as it is listed: its length, its digest, and its beginning where it is text.
#[derive(Debug, PartialEq, Eq)]
pub struct BytePreview {
    pub len: usize,
    pub sha256: String,
    pub utf8: Option<String>,
    pub truncated: bool,
}

/// A [`BytePreview`] as a mathematical value.
#[verifier::ext_equal]
pub struct BytePreviewView {
    pub len: nat,
    pub sha256: Seq<char>,
    pub utf8: Option<Seq<char>>,
    pub truncated: bool,
}

impl View for BytePreview {
    type V = BytePreviewView;

    open spec fn view(&self) -> BytePreviewView {
        BytePreviewView {
            len: self.len as nat,
            sha256: self.sha256@,
            utf8: text::opt_text(self.utf8),
            truncated: self.truncated,
        }
    }
}

impl Copied for BytePreview {
    fn copied(&self) -> (r: Self) {
        BytePreview {
            len: self.len,
            sha256: self.sha256.clone(),
            utf8: copy_opt_text(&self.utf8),
            truncated: self.truncated,
        }
    }
}

/// An operation of a lane with previews of the bytes it replaces and inserts.
#[derive(Debug, PartialEq, Eq)]
pub struct ReviewOpOutput {
    pub op: LaneOpSummary,
    pub base: BytePreview,
    pub inserted: BytePreview,
}

/// A [`ReviewOpOutput`] as a mathematical value.
#[verifier::ext_equal]
pub struct ReviewOpView {
    pub op: OpSummaryView,
    pub base: BytePreviewView,
    pub inserted: BytePreviewView,
}

impl View for ReviewOpOutput {
    type V = ReviewOpView;

    open spec fn view(&self) -> ReviewOpView {
        ReviewOpView {
            op: self.op@,
            base: self.base@,
            inserted: self.inserted@,
        }
    }
}

impl Copied for ReviewOpOutput {
    fn copied(&self) -> (r: Self) {
        ReviewOpOutput {
            op: self.op.copied(),
            base: self.base.copied(),
            inserted: self.inserted.copied(),
        }
    }
}

/// Something that a user must supply to carry out an action.
#[derive(Debug, PartialEq, Eq)]
pub struct ReviewActionInput {
    pub name: String,
    pub placeholder: String,
}

/// A [`ReviewActionInput`] as a mathematical value.
#[verifier::ext_equal]
pub struct ReviewActionInputView {
    pub name: Seq<char>,
    pub placeholder: Seq<char>,
}

impl View for ReviewActionInput {
    type V = ReviewActionInputView;

    open spec fn view(&self) -> ReviewActionInputView {
        ReviewActionInputView {
            name: self.name@,
            placeholder: self.placeholder@,
        }
    }
}

impl Copied for ReviewActionInput {
    fn copied(&self) -> (r: Self) {
        ReviewActionInput {
            name: self.name.clone(),
            placeholder: self.placeholder.clone(),
        }
    }
}

/// A command that a user can run.
#[derive(Debug, PartialEq, Eq)]
pub struct ReviewActionOutput {
    pub kind: ReviewActionKind,
    pub command: Vec<String>,
    pub lane: Option<String>,
    pub path: Option<String>,
    pub op_ids: Vec<String>,
    pub required_inputs: Vec<ReviewActionInput>,
}

/// A [`ReviewActionOutput`] as a mathematical value.
#[verifier::ext_equal]
pub struct ReviewActionView {
    pub kind: ReviewActionKind,
    pub command: Seq<Seq<char>>,
    pub lane: Option<Seq<char>>,
    pub path: Option<Seq<char>>,
    pub op_ids: Seq<Seq<char>>,
    pub required_inputs: Seq<ReviewActionInputView>,
}

impl View for ReviewActionOutput {
    type V = ReviewActionView;

    open spec fn view(&self) -> ReviewActionView {
        ReviewActionView {
            kind: self.kind,
            command: text::texts(self.command@),
            lane: text::opt_text(self.lane),
            path: text::opt_text(self.path),
            op_ids: text::texts(self.op_ids@),
            required_inputs: sorting::views(self.required_inputs@),
        }
    }
}

impl Copied for ReviewActionOutput {
    fn copied(&self) -> (r: Self) {
        ReviewActionOutput {
            kind: self.kind,
            command: copy_texts(&self.command),
            lane: copy_opt_text(&self.lane),
            path: copy_opt_text(&self.path),
            op_ids: copy_texts(&self.op_ids),
            required_inputs: copy_list(&self.required_inputs),
        }
    }
}

/// Operations of several lanes that cannot all be accepted as they are.
#[derive(Debug, PartialEq, Eq)]
pub struct ReviewConflictOutput {
    pub range_start: u64,
    pub range_end: u64,
    pub lanes: Vec<String>,
    pub actions: Vec<ReviewActionOutput>,
    pub ops: Vec<ReviewOpOutput>,
}

/// A [`ReviewConflictOutput`] as a mathematical value.
#[verifier::ext_equal]
pub struct ReviewConflictView {
    pub range_start: int,
    pub range_end: int,
    pub lanes: Seq<Seq<char>>,
    pub actions: Seq<ReviewActionView>,
    pub ops: Seq<ReviewOpView>,
}

impl View for ReviewConflictOutput {
    type V = ReviewConflictView;

    open spec fn view(&self) -> ReviewConflictView {
        ReviewConflictView {
            range_start: self.range_start as int,
            range_end: self.range_end as int,
            lanes: text::texts(self.lanes@),
            actions: sorting::views(self.actions@),
            ops: sorting::views(self.ops@),
        }
    }
}

impl Copied for ReviewConflictOutput {
    fn copied(&self) -> (r: Self) {
        ReviewConflictOutput {
            range_start: self.range_start,
            range_end: self.range_end,
            lanes: copy_texts(&self.lanes),
            actions: copy_list(&self.actions),
            ops: copy_list(&self.ops),
        }
    }
}

/// An operation in the order in which it takes effect, with the number of its conflict group.
#[derive(Debug, PartialEq, Eq)]
pub struct ReviewOrderedOpOutput {
    pub state: ReviewOpState,
    pub conflict_group: Option<usize>,
    pub op: LaneOpSummary,
    pub base: BytePreview,
    pub inserted: BytePreview,
}

/// A [`ReviewOrderedOpOutput`] as a mathematical value.
#[verifier::ext_equal]
pub struct ReviewOrderedOpView {
    pub state: ReviewOpState,
    pub conflict_group: Option<nat>,
    pub op: OpSummaryView,
    pub base: BytePreviewView,
    pub inserted: BytePreviewView,
}

impl View for ReviewOrderedOpOutput {
    type V = ReviewOrderedOpView;

    open spec fn view(&self) -> ReviewOrderedOpView {
        ReviewOrderedOpView {
            state: self.state,
            conflict_group: vfs::opt_size(self.conflict_group),
            op: self.op@,
            base: self.base@,
            inserted: self.inserted@,
        }
    }
}

impl Copied for ReviewOrderedOpOutput {
    fn copied(&self) -> (r: Self) {
        ReviewOrderedOpOutput {
            state: self.state,
            conflict_group: self.conflict_group,
            op: self.op.copied(),
            base: self.base.copied(),
            inserted: self.inserted.copied(),
        }
    }
}

/// What one lane does at a path.
#[derive(Debug, PartialEq, Eq)]
pub struct ReviewLaneOutput {
    pub lane: String,
    pub status: LaneFileChangeStatus,
    pub base_size: Option<usize>,
    pub lane_size: Option<usize>,
    pub total_ops: usize,
    pub clean_ops: usize,
    pub conflicted_ops: usize,
}

/// A [`ReviewLaneOutput`] as a mathematical value.
#[verifier::ext_equal]
pub struct ReviewLaneView {
    pub lane: Seq<char>,
    pub status: LaneFileChangeStatus,
    pub base_size: Option<nat>,
    pub lane_size: Option<nat>,
    pub total_ops: nat,
    pub clean_ops: nat,
    pub conflicted_ops: nat,
}

impl View for ReviewLaneOutput {
    type V = ReviewLaneView;

    open spec fn view(&self) -> ReviewLaneView {
        ReviewLaneView {
            lane: self.lane@,
            status: self.status,
            base_size: vfs::opt_size(self.base_size),
            lane_size: vfs::opt_size(self.lane_size),
            total_ops: self.total_ops as nat,
            clean_ops: self.clean_ops as nat,
            conflicted_ops: self.conflicted_ops as nat,
        }
    }
}

impl Copied for ReviewLaneOutput {
    fn copied(&self) -> (r: Self) {
        ReviewLaneOutput {
            lane: self.lane.clone(),
            status: self.status,
            base_size: self.base_size,
            lane_size: self.lane_size,
            total_ops: self.total_ops,
            clean_ops: self.clean_ops,
            conflicted_ops: self.conflicted_ops,
        }
    }
}

/// What the lanes do at a path.
#[derive(Debug, PartialEq, Eq)]
pub struct ReviewPathOutput {
    pub path: String,
    pub lanes: Vec<ReviewLaneOutput>,
    pub clean_ops: Vec<ReviewOpOutput>,
    pub ops: Vec<ReviewOrderedOpOutput>,
    pub conflicts: Vec<ReviewConflictOutput>,
}

/// A [`ReviewPathOutput`] as a mathematical value.
#[verifier::ext_equal]
pub struct ReviewPathView {
    pub path: Seq<char>,
    pub lanes: Seq<ReviewLaneView>,
    pub clean_ops: Seq<ReviewOpView>,
    pub ops: Seq<ReviewOrderedOpView>,
    pub conflicts: Seq<ReviewConflictView>,
}

impl View for ReviewPathOutput {
    type V = ReviewPathView;

    open spec fn view(&self) -> ReviewPathView {
        ReviewPathView {
            path: self.path@,
            lanes: sorting::views(self.lanes@),
            clean_ops: sorting::views(self.clean_ops@),
            ops: sorting::views(self.ops@),
            conflicts: sorting::views(self.conflicts@),
        }
    }
}

impl Copied for ReviewPathOutput {
    fn copied(&self) -> (r: Self) {
        ReviewPathOutput {
            path: self.path.clone(),
            lanes: copy_list(&self.lanes),
            clean_ops: copy_list(&self.clean_ops),
            ops: copy_list(&self.ops),
            conflicts: copy_list(&self.conflicts),
        }
    }
}

/// What a lane does in all.
#[derive(Debug, PartialEq, Eq)]
pub struct ReviewLaneSummary {
    pub lane: String,
    pub changed_paths: usize,
    pub clean_ops: usize,
    pub conflicted_ops: usize,
    pub last_run: Option<LaneRunState>,
    pub actions: Vec<ReviewActionOutput>,
}

/// A [`ReviewLaneSummary`] as a mathematical value.
#[verifier::ext_equal]
pub struct ReviewLaneSummaryView {
    pub lane: Seq<char>,
    pub changed_paths: nat,
    pub clean_ops: nat,
    pub conflicted_ops: nat,
    pub last_run: Option<RunStateView>,
    pub actions: Seq<ReviewActionView>,
}

impl View for ReviewLaneSummary {
    type V = ReviewLaneSummaryView;

    open spec fn view(&self) -> ReviewLaneSummaryView {
        ReviewLaneSummaryView {
            lane: self.lane@,
            changed_paths: self.changed_paths as nat,
            clean_ops: self.clean_ops as nat,
            conflicted_ops: self.conflicted_ops as nat,
            last_run: lists::opt_view(self.last_run),
            actions: sorting::views(self.actions@),
        }
    }
}

impl Copied for ReviewLaneSummary {
    fn copied(&self) -> (r: Self) {
        ReviewLaneSummary {
            lane: self.lane.clone(),
            changed_paths: self.changed_paths,
            clean_ops: self.clean_ops,
            conflicted_ops: self.conflicted_ops,
            last_run: copy_opt(&self.last_run),
            actions: copy_list(&self.actions),
        }
    }
}

/// The numbers of a review.
#[derive(Debug, PartialEq, Eq)]
pub struct ReviewSummary {
    pub lanes: usize,
    pub changed_paths: usize,
    pub clean_ops: usize,
    pub conflicted_ops: usize,
    pub conflict_groups: usize,
}

/// A [`ReviewSummary`] as a mathematical value.
#[verifier::ext_equal]
pub struct ReviewSummaryView {
    pub lanes: nat,
    pub changed_paths: nat,
    pub clean_ops: nat,
    pub conflicted_ops: nat,
    pub conflict_groups: nat,
}

impl View for ReviewSummary {
    type V = ReviewSummaryView;

    open spec fn view(&self) -> ReviewSummaryView {
        ReviewSummaryView {
            lanes: self.lanes as nat,
            changed_paths: self.changed_paths as nat,
            clean_ops: self.clean_ops as nat,
            conflicted_ops: self.conflicted_ops as nat,
            conflict_groups: self.conflict_groups as nat,
        }
    }
}

impl Copied for ReviewSummary {
    fn copied(&self) -> (r: Self) {
        ReviewSummary {
            lanes: self.lanes,
            changed_paths: self.changed_paths,
            clean_ops: self.clean_ops,
            conflicted_ops: self.conflicted_ops,
            conflict_groups: self.conflict_groups,
        }
    }
}

/// A review of one lane, or of all.
#[derive(Debug, PartialEq, Eq)]
pub struct ReviewOutput {
    pub lane: Option<String>,
    pub repo_root: String,
    pub storage_path: String,
    pub summary: ReviewSummary,
    pub lanes: Vec<ReviewLaneSummary>,
    pub paths: Vec<ReviewPathOutput>,
}

/// A [`ReviewOutput`] as a mathematical value.
#[verifier::ext_equal]
pub struct ReviewView {
    pub lane: Option<Seq<char>>,
    pub repo_root: Seq<char>,
    pub storage_path: Seq<char>,
    pub summary: ReviewSummaryView,
    pub lanes: Seq<ReviewLaneSummaryView>,
    pub paths: Seq<ReviewPathView>,
}

impl View for ReviewOutput {
    type V = ReviewView;

    open spec fn view(&self) -> ReviewView {
        ReviewView {
            lane: text::opt_text(self.lane),
            repo_root: self.repo_root@,
            storage_path: self.storage_path@,
            summary: self.summary@,
            lanes: sorting::views(self.lanes@),
            paths: sorting::views(self.paths@),
        }
    }
}

impl Copied for ReviewOutput {
    fn copied(&self) -> (r: Self) {
        ReviewOutput {
            lane: copy_opt_text(&self.lane),
            repo_root: self.repo_root.clone(),
            storage_path: self.storage_path.clone(),
            summary: self.summary.copied(),
            lanes: copy_list(&self.lanes),
            paths: copy_list(&self.paths),
        }
    }
}

} // verus!
