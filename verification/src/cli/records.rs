//! Runs of several attempts, and what is recorded of them.
use vstd::prelude::*;

use crate::cli::output::{ReviewOutput, ReviewView};
use crate::lists;
use crate::sorting;
use crate::text;
use crate::types::{LaneTextPreview, TextPreviewView};

verus! {

/// What a command did in a lane.
#[derive(Debug, PartialEq, Eq)]
pub struct RecordedExec {
    pub exit_code: Option<i32>,
    pub worker_error: Option<String>,
    pub stdout: LaneTextPreview,
    pub stderr: LaneTextPreview,
    pub changed_paths: Vec<String>,
    pub total_ms: u64,
    pub change_count: usize,
    pub warnings: Vec<String>,
}

/// A [`RecordedExec`] as a mathematical value.
#[verifier::ext_equal]
pub struct RecordedExecView {
    pub exit_code: Option<i32>,
    pub worker_error: Option<Seq<char>>,
    pub stdout: TextPreviewView,
    pub stderr: TextPreviewView,
    pub changed_paths: Seq<Seq<char>>,
    pub total_ms: int,
    pub change_count: nat,
    pub warnings: Seq<Seq<char>>,
}

impl View for RecordedExec {
    type V = RecordedExecView;

    open spec fn view(&self) -> RecordedExecView {
        RecordedExecView {
            exit_code: self.exit_code,
            worker_error: text::opt_text(self.worker_error),
            stdout: self.stdout@,
            stderr: self.stderr@,
            changed_paths: text::texts(self.changed_paths@),
            total_ms: self.total_ms as int,
            change_count: self.change_count as nat,
            warnings: text::texts(self.warnings@),
        }
    }
}

/// One attempt of a run, or of a check.
#[derive(Debug, PartialEq, Eq)]
pub struct AttemptRecord {
    pub index: usize,
    pub lane: String,
    pub recorded: Option<RecordedExec>,
    pub orchestration_error: Option<String>,
}

/// A [`AttemptRecord`] as a mathematical value.
#[verifier::ext_equal]
pub struct AttemptRecordView {
    pub index: nat,
    pub lane: Seq<char>,
    pub recorded: Option<RecordedExecView>,
    pub orchestration_error: Option<Seq<char>>,
}

impl View for AttemptRecord {
    type V = AttemptRecordView;

    open spec fn view(&self) -> AttemptRecordView {
        AttemptRecordView {
            index: self.index as nat,
            lane: self.lane@,
            recorded: lists::opt_view(self.recorded),
            orchestration_error: text::opt_text(self.orchestration_error),
        }
    }
}

/// A command that was run on every attempt.
#[derive(Debug, PartialEq, Eq)]
pub struct CheckRecord {
    pub name: String,
    pub command: Vec<String>,
    pub attempts: Vec<AttemptRecord>,
}

/// A [`CheckRecord`] as a mathematical value.
#[verifier::ext_equal]
pub struct CheckRecordView {
    pub name: Seq<char>,
    pub command: Seq<Seq<char>>,
    pub attempts: Seq<AttemptRecordView>,
}

impl View for CheckRecord {
    type V = CheckRecordView;

    open spec fn view(&self) -> CheckRecordView {
        CheckRecordView {
            name: self.name@,
            command: text::texts(self.command@),
            attempts: sorting::views(self.attempts@),
        }
    }
}

/// A run with its attempts and checks.
#[derive(Debug, PartialEq, Eq)]
pub struct RunRecord {
    pub version: u32,
    pub name: String,
    pub command: Vec<String>,
    pub attempts: Vec<AttemptRecord>,
    pub checks: Vec<CheckRecord>,
}

/// A [`RunRecord`] as a mathematical value.
#[verifier::ext_equal]
pub struct RunRecordView {
    pub version: int,
    pub name: Seq<char>,
    pub command: Seq<Seq<char>>,
    pub attempts: Seq<AttemptRecordView>,
    pub checks: Seq<CheckRecordView>,
}

impl View for RunRecord {
    type V = RunRecordView;

    open spec fn view(&self) -> RunRecordView {
        RunRecordView {
            version: self.version as int,
            name: self.name@,
            command: text::texts(self.command@),
            attempts: sorting::views(self.attempts@),
            checks: sorting::views(self.checks@),
        }
    }
}

/// How a check ended for one attempt.
#[derive(Debug, PartialEq, Eq)]
pub struct CompareCheck {
    pub name: String,
    pub ok: bool,
    pub exit_code: Option<i32>,
    pub worker_error: Option<String>,
    pub orchestration_error: Option<String>,
}

/// A [`CompareCheck`] as a mathematical value.
#[verifier::ext_equal]
pub struct CompareCheckView {
    pub name: Seq<char>,
    pub ok: bool,
    pub exit_code: Option<i32>,
    pub worker_error: Option<Seq<char>>,
    pub orchestration_error: Option<Seq<char>>,
}

impl View for CompareCheck {
    type V = CompareCheckView;

    open spec fn view(&self) -> CompareCheckView {
        CompareCheckView {
            name: self.name@,
            ok: self.ok,
            exit_code: self.exit_code,
            worker_error: text::opt_text(self.worker_error),
            orchestration_error: text::opt_text(self.orchestration_error),
        }
    }
}

/// A command that follows up on an attempt.
#[derive(Debug, PartialEq, Eq)]
pub struct CompareAction {
    pub kind: String,
    pub command: Vec<String>,
}

/// A [`CompareAction`] as a mathematical value.
#[verifier::ext_equal]
pub struct CompareActionView {
    pub kind: Seq<char>,
    pub command: Seq<Seq<char>>,
}

impl View for CompareAction {
    type V = CompareActionView;

    open spec fn view(&self) -> CompareActionView {
        CompareActionView {
            kind: self.kind@,
            command: text::texts(self.command@),
        }
    }
}

/// One attempt next to the others.
#[derive(Debug, PartialEq, Eq)]
pub struct CompareAttempt {
    pub index: usize,
    pub lane: String,
    pub attempt_ok: bool,
    pub attempt_exit_code: Option<i32>,
    pub attempt_error: Option<String>,
    pub checks_passed: usize,
    pub checks_failed: usize,
    pub checks: Vec<CompareCheck>,
    pub changed_paths: usize,
    pub clean_ops: usize,
    pub conflicted_ops: usize,
    pub actions: Vec<CompareAction>,
}

/// A [`CompareAttempt`] as a mathematical value.
#[verifier::ext_equal]
pub struct CompareAttemptView {
    pub index: nat,
    pub lane: Seq<char>,
    pub attempt_ok: bool,
    pub attempt_exit_code: Option<i32>,
    pub attempt_error: Option<Seq<char>>,
    pub checks_passed: nat,
    pub checks_failed: nat,
    pub checks: Seq<CompareCheckView>,
    pub changed_paths: nat,
    pub clean_ops: nat,
    pub conflicted_ops: nat,
    pub actions: Seq<CompareActionView>,
}

impl View for CompareAttempt {
    type V = CompareAttemptView;

    open spec fn view(&self) -> CompareAttemptView {
        CompareAttemptView {
            index: self.index as nat,
            lane: self.lane@,
            attempt_ok: self.attempt_ok,
            attempt_exit_code: self.attempt_exit_code,
            attempt_error: text::opt_text(self.attempt_error),
            checks_passed: self.checks_passed as nat,
            checks_failed: self.checks_failed as nat,
            checks: sorting::views(self.checks@),
            changed_paths: self.changed_paths as nat,
            clean_ops: self.clean_ops as nat,
            conflicted_ops: self.conflicted_ops as nat,
            actions: sorting::views(self.actions@),
        }
    }
}

/// The attempts of a run side by side.
#[derive(Debug, PartialEq, Eq)]
pub struct CompareOutput {
    pub repo_root: String,
    pub storage_path: String,
    pub run: RunRecord,
    pub attempts: Vec<CompareAttempt>,
    pub review: ReviewOutput,
}

/// A [`CompareOutput`] as a mathematical value.
#[verifier::ext_equal]
pub struct CompareView {
    pub repo_root: Seq<char>,
    pub storage_path: Seq<char>,
    pub run: RunRecordView,
    pub attempts: Seq<CompareAttemptView>,
    pub review: ReviewView,
}

impl View for CompareOutput {
    type V = CompareView;

    open spec fn view(&self) -> CompareView {
        CompareView {
            repo_root: self.repo_root@,
            storage_path: self.storage_path@,
            run: self.run@,
            attempts: sorting::views(self.attempts@),
            review: self.review@,
        }
    }
}

} // verus!
