//! The review of lanes: what each of them changes, and where they conflict.
use vstd::prelude::*;

use crate::cli::error::CliError;
use crate::cli::output::{ReviewOpOutput, ReviewOpView};
use crate::cli::preview;
use crate::cli::preview::byte_preview;
use crate::lists;
use crate::repo;
use crate::sorting;
use crate::text;
use crate::text_map;
use crate::types::{LaneErrorView, LaneOpSummary, OpSummaryView};
use crate::vfs;
use crate::vfs::{ChangeView, Fs, LaneFileChange, LaneFs, LaneFsErrorView};

verus! {

/// The changes of a lane at given paths, or the first error.
pub open spec fn changes_at(fs: Fs, lane: Seq<char>, paths: Seq<Seq<char>>) -> Result<
    Seq<ChangeView>,
    LaneFsErrorView,
>
    decreases paths.len(),
{
    if paths.len() == 0 {
        Ok(Seq::empty())
    } else {
        match changes_at(fs, lane, paths.drop_last()) {
            Err(error) => Err(error),
            Ok(changes) => match vfs::fs_change(fs, lane, paths.last()) {
                Err(error) => Err(error),
                Ok(None) => Ok(changes),
                Ok(Some(change)) => Ok(changes.push(change)),
            },
        }
    }
}

/// All changes of a lane, or why they cannot be listed.
pub open spec fn lane_changes(fs: Fs, lane: Seq<char>) -> Result<Seq<ChangeView>, LaneFsErrorView> {
    if fs.repo.lanes.contains(lane) {
        changes_at(fs, lane, repo::overlay_listing(fs.repo, lane))
    } else {
        Err(LaneFsErrorView::Lane(LaneErrorView::LaneMissing(lane)))
    }
}

/// The view of a result of a command: a value, or what users are told.
pub open spec fn told<T>(r: Result<T, LaneFsErrorView>) -> Result<T, Seq<char>> {
    match r {
        Ok(value) => Ok(value),
        Err(error) => Err(vfs::fs_error_message(error)),
    }
}

/// The view of a result that carries changes.
pub open spec fn changes_result(r: Result<Vec<LaneFileChange>, CliError>) -> Result<
    Seq<ChangeView>,
    Seq<char>,
> {
    match r {
        Ok(changes) => Ok(sorting::views(changes@)),
        Err(error) => Err(error@),
    }
}

proof fn lemma_changes_error(fs: Fs, lane: Seq<char>, paths: Seq<Seq<char>>, i: int)
    requires
        0 <= i < paths.len(),
        changes_at(fs, lane, paths.subrange(0, i + 1)) is Err,
    ensures
        changes_at(fs, lane, paths) == changes_at(fs, lane, paths.subrange(0, i + 1)),
    decreases paths.len(),
{
    if i + 1 == paths.len() {
        assert(paths.subrange(0, i + 1) =~= paths);
    } else {
        let rest = paths.drop_last();
        assert(rest.subrange(0, i + 1) =~= paths.subrange(0, i + 1));
        lemma_changes_error(fs, lane, rest, i);
    }
}

/// The changes of a lane at given paths.
pub fn changes_for_paths(fs: &LaneFs, lane: &str, paths: &Vec<String>) -> (r: Result<
    Vec<LaneFileChange>,
    CliError,
>)
    requires
        fs.wf(),
    ensures
        changes_result(r) == told(changes_at(fs@, lane@, text::texts(paths@))),
{
    let ghost all = text::texts(paths@);
    let mut changes: Vec<LaneFileChange> = Vec::new();
    let mut i: usize = 0;
    assert(all.subrange(0, 0) =~= Seq::empty());
    assert(sorting::views(changes@) =~= Seq::empty());
    while i < paths.len()
        invariant
            i <= paths@.len(),
            fs.wf(),
            all == text::texts(paths@),
            changes_at(fs@, lane@, all.subrange(0, i as int)) == Ok::<
                Seq<ChangeView>,
                LaneFsErrorView,
            >(sorting::views(changes@)),
        decreases paths@.len() - i,
    {
        proof {
            assert(all.subrange(0, i + 1).drop_last() =~= all.subrange(0, i as int));
            assert(all.subrange(0, i + 1).last() == paths@[i as int]@);
        }
        match fs.change_for_path(lane, paths[i].as_str()) {
            Err(error) => {
                proof {
                    lemma_changes_error(fs@, lane@, all, i as int);
                }
                return Err(CliError::from_fs(&error));
            },
            Ok(None) => {},
            Ok(Some(change)) => {
                proof {
                    lists::lemma_views_push(changes@, change);
                }
                changes.push(change);
            },
        }
        i = i + 1;
    }
    assert(all.subrange(0, i as int) =~= all);
    Ok(changes)
}

/// All changes of a lane.
pub fn collect_changes(fs: &LaneFs, lane: &str) -> (r: Result<Vec<LaneFileChange>, CliError>)
    requires
        fs.wf(),
    ensures
        changes_result(r) == told(lane_changes(fs@, lane@)),
{
    match fs.changed_paths(lane) {
        Err(error) => Err(CliError::from_fs(&error)),
        Ok(paths) => changes_for_paths(fs, lane, &paths),
    }
}

/// The lanes that a review covers: the one that is asked for, or all in order.
pub fn review_lanes(fs: &LaneFs, lane: Option<&str>) -> (r: Result<Vec<String>, CliError>)
    requires
        fs.wf(),
    ensures
        match lane {
            Some(lane) => match r {
                Ok(lanes) => fs@.repo.lanes.contains(lane@) && text::texts(lanes@) == seq![lane@],
                Err(error) => !fs@.repo.lanes.contains(lane@) && error@ == vfs::fs_error_message(
                    LaneFsErrorView::Lane(LaneErrorView::LaneMissing(lane@)),
                ),
            },
            None => r is Ok && text::texts(r->Ok_0@) == text_map::listing(fs@.repo.lanes),
        },
{
    match lane {
        Some(lane) => match fs.changed_paths(lane) {
            Err(error) => Err(CliError::from_fs(&error)),
            Ok(_) => {
                let mut lanes: Vec<String> = Vec::new();
                lanes.push(lane.to_owned());
                assert(text::texts(lanes@) =~= seq![lane@]);
                Ok(lanes)
            },
        },
        None => {
            let found = fs.repo().lane_ids();
            let mut lanes: Vec<String> = Vec::new();
            let mut i: usize = 0;
            while i < found.len()
                invariant
                    i <= found@.len(),
                    lanes@.len() == i,
                    forall|k: int| 0 <= k < i ==> (#[trigger] lanes@[k])@ == found@[k]@,
                decreases found@.len() - i,
            {
                lanes.push(found[i].to_owned());
                i = i + 1;
            }
            assert(text::texts(lanes@) =~= text::strs(found@));
            Ok(lanes)
        },
    }
}

/// An operation with its previews, or why its bytes cannot be had.
pub open spec fn reviewed_op(fs: Fs, op: OpSummaryView) -> Result<ReviewOpView, LaneFsErrorView> {
    match vfs::fs_op_detail(fs, op.lane, op.path, op.op_id) {
        Err(error) => Err(error),
        Ok(detail) => Ok(
            ReviewOpView {
                op: detail.summary,
                base: preview::previewed(detail.base),
                inserted: preview::previewed(detail.inserted),
            },
        ),
    }
}

/// Operations with their previews, or the first error.
pub open spec fn reviewed_ops(fs: Fs, ops: Seq<OpSummaryView>) -> Result<
    Seq<ReviewOpView>,
    LaneFsErrorView,
>
    decreases ops.len(),
{
    if ops.len() == 0 {
        Ok(Seq::empty())
    } else {
        match reviewed_ops(fs, ops.drop_last()) {
            Err(error) => Err(error),
            Ok(list) => match reviewed_op(fs, ops.last()) {
                Err(error) => Err(error),
                Ok(op) => Ok(list.push(op)),
            },
        }
    }
}

fn review_op(fs: &LaneFs, summary: &LaneOpSummary) -> (r: Result<ReviewOpOutput, CliError>)
    requires
        fs.wf(),
    ensures
        match r {
            Ok(op) => reviewed_op(fs@, summary@) == Ok::<ReviewOpView, LaneFsErrorView>(op@),
            Err(error) => told(reviewed_op(fs@, summary@)) == Err::<ReviewOpView, Seq<char>>(
                error@,
            ),
        },
{
    match fs.op_detail(summary.lane.as_str(), summary.path.as_str(), summary.op_id.as_str()) {
        Err(error) => Err(CliError::from_fs(&error)),
        Ok(detail) => Ok(
            ReviewOpOutput {
                base: byte_preview(detail.base.as_slice()),
                inserted: byte_preview(detail.inserted.as_slice()),
                op: detail.summary,
            },
        ),
    }
}

proof fn lemma_reviewed_error(fs: Fs, ops: Seq<OpSummaryView>, i: int)
    requires
        0 <= i < ops.len(),
        reviewed_ops(fs, ops.subrange(0, i + 1)) is Err,
    ensures
        reviewed_ops(fs, ops) == reviewed_ops(fs, ops.subrange(0, i + 1)),
    decreases ops.len(),
{
    if i + 1 == ops.len() {
        assert(ops.subrange(0, i + 1) =~= ops);
    } else {
        let rest = ops.drop_last();
        assert(rest.subrange(0, i + 1) =~= ops.subrange(0, i + 1));
        lemma_reviewed_error(fs, rest, i);
    }
}

/// Reviewed operations are as many as there are operations.
pub proof fn lemma_reviewed_len(fs: Fs, ops: Seq<OpSummaryView>)
    requires
        reviewed_ops(fs, ops) is Ok,
    ensures
        reviewed_ops(fs, ops)->Ok_0.len() == ops.len(),
    decreases ops.len(),
{
    if ops.len() > 0 {
        lemma_reviewed_len(fs, ops.drop_last());
    }
}

pub(crate) fn review_ops(fs: &LaneFs, ops: &Vec<LaneOpSummary>) -> (r: Result<Vec<ReviewOpOutput>, CliError>)
    requires
        fs.wf(),
    ensures
        match r {
            Ok(list) => reviewed_ops(fs@, sorting::views(ops@)) == Ok::<
                Seq<ReviewOpView>,
                LaneFsErrorView,
            >(sorting::views(list@)),
            Err(error) => told(reviewed_ops(fs@, sorting::views(ops@))) == Err::<
                Seq<ReviewOpView>,
                Seq<char>,
            >(error@),
        },
{
    let ghost all = sorting::views(ops@);
    let mut list: Vec<ReviewOpOutput> = Vec::new();
    let mut i: usize = 0;
    assert(all.subrange(0, 0) =~= Seq::empty());
    assert(sorting::views(list@) =~= Seq::empty());
    while i < ops.len()
        invariant
            i <= ops@.len(),
            fs.wf(),
            all == sorting::views(ops@),
            reviewed_ops(fs@, all.subrange(0, i as int)) == Ok::<
                Seq<ReviewOpView>,
                LaneFsErrorView,
            >(sorting::views(list@)),
        decreases ops@.len() - i,
    {
        proof {
            assert(all.subrange(0, i + 1).drop_last() =~= all.subrange(0, i as int));
            assert(all.subrange(0, i + 1).last() == ops@[i as int]@);
        }
        match review_op(fs, &ops[i]) {
            Err(error) => {
                proof {
                    lemma_reviewed_error(fs@, all, i as int);
                }
                return Err(error);
            },
            Ok(op) => {
                proof {
                    lists::lemma_views_push(list@, op);
                }
                list.push(op);
            },
        }
        i = i + 1;
    }
    assert(all.subrange(0, i as int) =~= all);
    Ok(list)
}

/// A change of a lane with the previews of its operations.
#[derive(Debug, PartialEq, Eq)]
pub struct ReviewedChange {
    pub lane: String,
    pub change: LaneFileChange,
    pub ops: Vec<ReviewOpOutput>,
}

/// A [`ReviewedChange`] as a mathematical value.
#[verifier::ext_equal]
pub struct ReviewedChangeView {
    pub lane: Seq<char>,
    pub change: ChangeView,
    pub ops: Seq<ReviewOpView>,
}

impl View for ReviewedChange {
    type V = ReviewedChangeView;

    open spec fn view(&self) -> ReviewedChangeView {
        ReviewedChangeView {
            lane: self.lane@,
            change: self.change@,
            ops: sorting::views(self.ops@),
        }
    }
}

/// Every operation of the change has been reviewed.
pub open spec fn fully_reviewed(change: ReviewedChangeView) -> bool {
    change.ops.len() == change.change.ops.len()
}

/// Changes of a lane with the previews of their operations, or the first error.
pub open spec fn reviewed_changes(fs: Fs, lane: Seq<char>, changes: Seq<ChangeView>) -> Result<
    Seq<ReviewedChangeView>,
    LaneFsErrorView,
>
    decreases changes.len(),
{
    if changes.len() == 0 {
        Ok(Seq::empty())
    } else {
        match reviewed_changes(fs, lane, changes.drop_last()) {
            Err(error) => Err(error),
            Ok(list) => match reviewed_ops(fs, changes.last().ops) {
                Err(error) => Err(error),
                Ok(ops) => Ok(list.push(ReviewedChangeView { lane, change: changes.last(), ops })),
            },
        }
    }
}

/// The changes of lanes, lane by lane, with the previews of their operations, or the first error.
pub open spec fn reviewed_lanes(fs: Fs, lanes: Seq<Seq<char>>) -> Result<
    Seq<ReviewedChangeView>,
    LaneFsErrorView,
>
    decreases lanes.len(),
{
    if lanes.len() == 0 {
        Ok(Seq::empty())
    } else {
        match reviewed_lanes(fs, lanes.drop_last()) {
            Err(error) => Err(error),
            Ok(list) => match lane_changes(fs, lanes.last()) {
                Err(error) => Err(error),
                Ok(changes) => match reviewed_changes(fs, lanes.last(), changes) {
                    Err(error) => Err(error),
                    Ok(more) => Ok(list + more),
                },
            },
        }
    }
}

proof fn lemma_reviewed_changes_error(fs: Fs, lane: Seq<char>, changes: Seq<ChangeView>, i: int)
    requires
        0 <= i < changes.len(),
        reviewed_changes(fs, lane, changes.subrange(0, i + 1)) is Err,
    ensures
        reviewed_changes(fs, lane, changes) == reviewed_changes(
            fs,
            lane,
            changes.subrange(0, i + 1),
        ),
    decreases changes.len(),
{
    if i + 1 == changes.len() {
        assert(changes.subrange(0, i + 1) =~= changes);
    } else {
        let rest = changes.drop_last();
        assert(rest.subrange(0, i + 1) =~= changes.subrange(0, i + 1));
        lemma_reviewed_changes_error(fs, lane, rest, i);
    }
}

proof fn lemma_reviewed_lanes_error(fs: Fs, lanes: Seq<Seq<char>>, i: int)
    requires
        0 <= i < lanes.len(),
        reviewed_lanes(fs, lanes.subrange(0, i + 1)) is Err,
    ensures
        reviewed_lanes(fs, lanes) == reviewed_lanes(fs, lanes.subrange(0, i + 1)),
    decreases lanes.len(),
{
    if i + 1 == lanes.len() {
        assert(lanes.subrange(0, i + 1) =~= lanes);
    } else {
        let rest = lanes.drop_last();
        assert(rest.subrange(0, i + 1) =~= lanes.subrange(0, i + 1));
        lemma_reviewed_lanes_error(fs, rest, i);
    }
}

/// Adds the changes of one lane to a list of reviewed changes.
fn review_lane(fs: &LaneFs, lane: &str, list: &mut Vec<ReviewedChange>) -> (r: Result<(), CliError>)
    requires
        fs.wf(),
        forall|k: int| 0 <= k < old(list)@.len() ==> fully_reviewed((#[trigger] old(list)@[k])@),
    ensures
        forall|k: int| 0 <= k < final(list)@.len() ==> fully_reviewed((#[trigger] final(list)@[k])@),
        match lane_changes(fs@, lane@) {
            Err(error) => r is Err && r->Err_0@ == vfs::fs_error_message(error),
            Ok(changes) => match reviewed_changes(fs@, lane@, changes) {
                Err(error) => r is Err && r->Err_0@ == vfs::fs_error_message(error),
                Ok(more) => r is Ok && sorting::views(final(list)@) == sorting::views(old(list)@)
                    + more,
            },
        },
{
    let mut changes = match collect_changes(fs, lane) {
        Err(error) => {
            return Err(error);
        },
        Ok(changes) => changes,
    };
    let ghost all = sorting::views(changes@);
    let ghost start = sorting::views(list@);
    let n: usize = changes.len();
    let mut reviewed: Vec<Vec<ReviewOpOutput>> = Vec::new();
    let mut i: usize = 0;
    assert(all.subrange(0, 0) =~= Seq::empty());
    while i < n
        invariant
            i <= n == changes@.len(),
            fs.wf(),
            all == sorting::views(changes@),
            lane_changes(fs@, lane@) == Ok::<Seq<ChangeView>, LaneFsErrorView>(all),
            reviewed@.len() == i,
            reviewed_changes(fs@, lane@, all.subrange(0, i as int)) is Ok,
            reviewed_changes(fs@, lane@, all.subrange(0, i as int))->Ok_0 =~= Seq::new(
                i as nat,
                |k: int|
                    ReviewedChangeView {
                        lane: lane@,
                        change: all[k],
                        ops: sorting::views(reviewed@[k]@),
                    },
            ),
            forall|k: int| 0 <= k < i ==> (#[trigger] reviewed@[k])@.len() == all[k].ops.len(),
            forall|k: int| 0 <= k < list@.len() ==> fully_reviewed((#[trigger] list@[k])@),
            sorting::views(list@) == start,
        decreases n - i,
    {
        proof {
            assert(all.subrange(0, i + 1).drop_last() =~= all.subrange(0, i as int));
            assert(all.subrange(0, i + 1).last() == changes@[i as int]@);
        }
        match review_ops(fs, &changes[i].ops) {
            Err(error) => {
                proof {
                    lemma_reviewed_changes_error(fs@, lane@, all, i as int);
                }
                return Err(error);
            },
            Ok(ops) => {
                proof {
                    lemma_reviewed_len(fs@, all[i as int].ops);
                }
                reviewed.push(ops);
            },
        }
        i = i + 1;
    }
    assert(all.subrange(0, i as int) =~= all);
    let ghost more = reviewed_changes(fs@, lane@, all)->Ok_0;
    let mut j: usize = 0;
    let ghost changes0 = changes@;
    let ghost reviewed0 = reviewed@;
    while j < n
        invariant
            j <= n == changes0.len() == reviewed0.len() == more.len(),
            changes@ == changes0.subrange(j as int, n as int),
            reviewed@ == reviewed0.subrange(j as int, n as int),
            more =~= Seq::new(
                n as nat,
                |k: int|
                    ReviewedChangeView {
                        lane: lane@,
                        change: changes0[k]@,
                        ops: sorting::views(reviewed0[k]@),
                    },
            ),
            forall|k: int| 0 <= k < n ==> (#[trigger] reviewed0[k])@.len() == changes0[k]@.ops.len(),
            sorting::views(list@) == start + more.subrange(0, j as int),
            forall|k: int| 0 <= k < list@.len() ==> fully_reviewed((#[trigger] list@[k])@),
        decreases n - j,
    {
        let change = changes.remove(0);
        let ops = reviewed.remove(0);
        let entry = ReviewedChange { lane: lane.to_owned(), change, ops };
        proof {
            assert(changes@ =~= changes0.subrange(j + 1, n as int));
            assert(reviewed@ =~= reviewed0.subrange(j + 1, n as int));
            assert(entry@ =~= more[j as int]);
            lists::lemma_views_push(list@, entry);
            assert(start + more.subrange(0, j + 1) =~= (start + more.subrange(0, j as int)).push(
                more[j as int],
            ));
            assert(reviewed0[j as int]@.len() == changes0[j as int]@.ops.len());
        }
        list.push(entry);
        j = j + 1;
    }
    assert(more.subrange(0, j as int) =~= more);
    Ok(())
}

/// The changes of lanes, lane by lane, with the previews of their operations.
pub fn review_changes(fs: &LaneFs, lanes: &Vec<String>) -> (r: Result<
    Vec<ReviewedChange>,
    CliError,
>)
    requires
        fs.wf(),
    ensures
        match r {
            Ok(list) => {
                &&& reviewed_lanes(fs@, text::texts(lanes@)) == Ok::<
                    Seq<ReviewedChangeView>,
                    LaneFsErrorView,
                >(sorting::views(list@))
                &&& forall|k: int| 0 <= k < list@.len() ==> fully_reviewed((#[trigger] list@[k])@)
            },
            Err(error) => told(reviewed_lanes(fs@, text::texts(lanes@))) == Err::<
                Seq<ReviewedChangeView>,
                Seq<char>,
            >(error@),
        },
{
    let ghost all = text::texts(lanes@);
    let mut list: Vec<ReviewedChange> = Vec::new();
    let mut i: usize = 0;
    assert(all.subrange(0, 0) =~= Seq::empty());
    assert(sorting::views(list@) =~= Seq::empty());
    while i < lanes.len()
        invariant
            i <= lanes@.len(),
            fs.wf(),
            all == text::texts(lanes@),
            reviewed_lanes(fs@, all.subrange(0, i as int)) == Ok::<
                Seq<ReviewedChangeView>,
                LaneFsErrorView,
            >(sorting::views(list@)),
            forall|k: int| 0 <= k < list@.len() ==> fully_reviewed((#[trigger] list@[k])@),
        decreases lanes@.len() - i,
    {
        proof {
            assert(all.subrange(0, i + 1).drop_last() =~= all.subrange(0, i as int));
            assert(all.subrange(0, i + 1).last() == lanes@[i as int]@);
        }
        match review_lane(fs, lanes[i].as_str(), &mut list) {
            Err(error) => {
                proof {
                    lemma_reviewed_lanes_error(fs@, all, i as int);
                }
                return Err(error);
            },
            Ok(()) => {},
        }
        i = i + 1;
    }
    assert(all.subrange(0, i as int) =~= all);
    Ok(list)
}

} // verus!
