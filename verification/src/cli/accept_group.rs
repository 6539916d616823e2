//! Accepting the operations of a conflict group with one replacement.
use vstd::prelude::*;

use crate::cli::collect;
use crate::cli::collect::pick_ops;
use crate::cli::error::CliError;
use crate::cli::groups;
use crate::cli::groups::mark_group;
use crate::cli::output::{ReviewOpOutput, ReviewOpView};
use crate::cli::review;
use crate::cli::review::{review_lanes, review_ops, ReviewedChange, ReviewedChangeView};
use crate::cli::targets;
use crate::cli::targets::{accept_replacement_ops_cli_error, parse_lane_op_selections};
use crate::combine;
use crate::combine::LaneOpSelection;
use crate::commit::Promoted;
use crate::lists;
use crate::sorting;
use crate::text;
use crate::text::text_eq;
use crate::text_map;
use crate::types::{LaneError, LaneErrorView, LaneOpSummary, OpSummaryView};
use crate::vfs;
use crate::vfs::{Fs, LaneFs, LaneFsError, LaneFsErrorView};

verus! {

/// The operations at a path that conflict, lane by lane, or the first error.
pub open spec fn conflicted_at(fs: Fs, lanes: Seq<Seq<char>>, raw: Seq<char>) -> Result<
    Seq<ReviewOpView>,
    LaneFsErrorView,
>
    decreases lanes.len(),
{
    if lanes.len() == 0 {
        Ok(Seq::empty())
    } else {
        match conflicted_at(fs, lanes.drop_last(), raw) {
            Err(error) => Err(error),
            Ok(list) => match vfs::fs_change(fs, lanes.last(), raw) {
                Err(error) => Err(error),
                Ok(None) => Ok(list),
                Ok(Some(change)) => match review::reviewed_ops(fs, change.ops) {
                    Err(error) => Err(error),
                    Ok(ops) => Ok(
                        list + collect::picked(
                            ReviewedChangeView { lane: lanes.last(), change, ops },
                            false,
                        ),
                    ),
                },
            },
        }
    }
}

proof fn lemma_conflicted_error(fs: Fs, lanes: Seq<Seq<char>>, raw: Seq<char>, i: int)
    requires
        0 <= i < lanes.len(),
        conflicted_at(fs, lanes.subrange(0, i + 1), raw) is Err,
    ensures
        conflicted_at(fs, lanes, raw) == conflicted_at(fs, lanes.subrange(0, i + 1), raw),
    decreases lanes.len(),
{
    if i + 1 == lanes.len() {
        assert(lanes.subrange(0, i + 1) =~= lanes);
    } else {
        let rest = lanes.drop_last();
        assert(rest.subrange(0, i + 1) =~= lanes.subrange(0, i + 1));
        lemma_conflicted_error(fs, rest, raw, i);
    }
}

fn conflicted_ops(fs: &LaneFs, lanes: &Vec<String>, path: &str) -> (r: Result<
    Vec<ReviewOpOutput>,
    CliError,
>)
    requires
        fs.wf(),
    ensures
        match r {
            Ok(list) => conflicted_at(fs@, text::texts(lanes@), path@) == Ok::<
                Seq<ReviewOpView>,
                LaneFsErrorView,
            >(sorting::views(list@)),
            Err(error) => review::told(conflicted_at(fs@, text::texts(lanes@), path@)) == Err::<
                Seq<ReviewOpView>,
                Seq<char>,
            >(error@),
        },
{
    let ghost all = text::texts(lanes@);
    let mut list: Vec<ReviewOpOutput> = Vec::new();
    let mut i: usize = 0;
    assert(all.subrange(0, 0) =~= Seq::empty());
    assert(sorting::views(list@) =~= Seq::empty());
    while i < lanes.len()
        invariant
            i <= lanes@.len(),
            fs.wf(),
            all == text::texts(lanes@),
            conflicted_at(fs@, all.subrange(0, i as int), path@) == Ok::<
                Seq<ReviewOpView>,
                LaneFsErrorView,
            >(sorting::views(list@)),
        decreases lanes@.len() - i,
    {
        proof {
            assert(all.subrange(0, i + 1).drop_last() =~= all.subrange(0, i as int));
            assert(all.subrange(0, i + 1).last() == lanes@[i as int]@);
        }
        match fs.change_for_path(lanes[i].as_str(), path) {
            Err(error) => {
                proof {
                    lemma_conflicted_error(fs@, all, path@, i as int);
                }
                return Err(CliError::from_fs(&error));
            },
            Ok(None) => {},
            Ok(Some(change)) => match review_ops(fs, &change.ops) {
                Err(error) => {
                    proof {
                        lemma_conflicted_error(fs@, all, path@, i as int);
                    }
                    return Err(error);
                },
                Ok(ops) => {
                    proof {
                        review::lemma_reviewed_len(fs@, change@.ops);
                    }
                    let reviewed = ReviewedChange { lane: lanes[i].clone(), change, ops };
                    pick_ops(&reviewed, false, &mut list);
                },
            },
        }
        i = i + 1;
    }
    assert(all.subrange(0, i as int) =~= all);
    Ok(list)
}

/// Whether an operation with this name is in the group of operation `i`.
pub open spec fn group_names(ops: Seq<ReviewOpView>, i: int, name: Seq<char>) -> bool {
    exists|j: int|
        0 <= j < ops.len() && (#[trigger] ops[j]).op.op_id == name && groups::grouped(ops, i, j)
}

/// Whether all names are those of operations in the group of operation `i`.
pub open spec fn group_holds(ops: Seq<ReviewOpView>, i: int, names: Seq<Seq<char>>) -> bool {
    forall|n: int| 0 <= n < names.len() ==> group_names(ops, i, #[trigger] names[n])
}

/// Whether names are those of operations of one group.
pub open spec fn in_one_group(ops: Seq<ReviewOpView>, names: Seq<Seq<char>>) -> bool {
    exists|i: int| 0 <= i < ops.len() && #[trigger] group_holds(ops, i, names)
}

fn is_in_group(ops: &Vec<ReviewOpOutput>, flags: &Vec<bool>, index: usize, name: &str) -> (r: bool)
    requires
        flags@.len() == ops@.len(),
        forall|j: int|
            0 <= j < ops@.len() ==> (#[trigger] flags@[j]) == groups::grouped(
                sorting::views(ops@),
                index as int,
                j,
            ),
    ensures
        r == group_names(sorting::views(ops@), index as int, name@),
{
    let ghost all = sorting::views(ops@);
    let mut j: usize = 0;
    while j < ops.len()
        invariant
            j <= ops@.len() == flags@.len(),
            all == sorting::views(ops@),
            forall|k: int|
                0 <= k < ops@.len() ==> (#[trigger] flags@[k]) == groups::grouped(
                    all,
                    index as int,
                    k,
                ),
            forall|k: int|
                0 <= k < j ==> !((#[trigger] all[k]).op.op_id == name@ && groups::grouped(
                    all,
                    index as int,
                    k,
                )),
        decreases ops@.len() - j,
    {
        assert(all[j as int] == ops@[j as int]@);
        if flags[j] && text_eq(ops[j].op.op_id.as_str(), name) {
            assert(all[j as int].op.op_id == name@ && groups::grouped(all, index as int, j as int));
            return true;
        }
        j = j + 1;
    }
    false
}

fn are_in_one_group(ops: &Vec<ReviewOpOutput>, selected: &Vec<LaneOpSummary>) -> (r: bool)
    ensures
        r == in_one_group(sorting::views(ops@), names_of(sorting::views(selected@))),
{
    let ghost all = sorting::views(ops@);
    let ghost names = names_of(sorting::views(selected@));
    let mut i: usize = 0;
    while i < ops.len()
        invariant
            i <= ops@.len(),
            all == sorting::views(ops@),
            names == names_of(sorting::views(selected@)),
            forall|k: int| 0 <= k < i ==> !#[trigger] group_holds(all, k, names),
        decreases ops@.len() - i,
    {
        let flags = mark_group(ops, i);
        let mut held: bool = true;
        let mut n: usize = 0;
        while n < selected.len()
            invariant
                i < ops@.len(),
                n <= selected@.len(),
                all == sorting::views(ops@),
                names == names_of(sorting::views(selected@)),
                flags@.len() == ops@.len(),
                forall|j: int|
                    0 <= j < ops@.len() ==> (#[trigger] flags@[j]) == groups::grouped(
                        all,
                        i as int,
                        j,
                    ),
                held ==> forall|m: int|
                    0 <= m < n ==> group_names(all, i as int, #[trigger] names[m]),
                !held ==> !group_holds(all, i as int, names),
            decreases selected@.len() - n,
        {
            assert(names[n as int] == selected@[n as int].op_id@);
            if !is_in_group(ops, &flags, i, selected[n].op_id.as_str()) {
                held = false;
            }
            n = n + 1;
        }
        if held {
            assert(group_holds(all, i as int, names));
            return true;
        }
        i = i + 1;
    }
    false
}

/// The names of operations.
pub open spec fn names_of(list: Seq<OpSummaryView>) -> Seq<Seq<char>> {
    Seq::new(list.len(), |i: int| list[i].op_id)
}

/// The summaries of picked operations, or the first error.
pub open spec fn picked_summaries(fs: Fs, raw: Seq<char>, picks: Seq<(Seq<char>, Seq<char>)>) -> Result<
    Seq<OpSummaryView>,
    LaneFsErrorView,
>
    decreases picks.len(),
{
    if picks.len() == 0 {
        Ok(Seq::empty())
    } else {
        match picked_summaries(fs, raw, picks.drop_last()) {
            Err(error) => Err(error),
            Ok(list) => match vfs::fs_op_detail(fs, picks.last().0, raw, picks.last().1) {
                Err(error) => Err(error),
                Ok(detail) => Ok(list.push(detail.summary)),
            },
        }
    }
}

proof fn lemma_picked_error(fs: Fs, raw: Seq<char>, picks: Seq<(Seq<char>, Seq<char>)>, i: int)
    requires
        0 <= i < picks.len(),
        picked_summaries(fs, raw, picks.subrange(0, i + 1)) is Err,
    ensures
        picked_summaries(fs, raw, picks) == picked_summaries(fs, raw, picks.subrange(0, i + 1)),
    decreases picks.len(),
{
    if i + 1 == picks.len() {
        assert(picks.subrange(0, i + 1) =~= picks);
    } else {
        let rest = picks.drop_last();
        assert(rest.subrange(0, i + 1) =~= picks.subrange(0, i + 1));
        lemma_picked_error(fs, raw, rest, i);
    }
}

fn summaries_of(fs: &LaneFs, path: &str, picks: &Vec<LaneOpSelection>) -> (r: Result<
    Vec<LaneOpSummary>,
    CliError,
>)
    requires
        fs.wf(),
    ensures
        match r {
            Ok(list) => picked_summaries(fs@, path@, sorting::views(picks@)) == Ok::<
                Seq<OpSummaryView>,
                LaneFsErrorView,
            >(sorting::views(list@)),
            Err(error) => review::told(
                picked_summaries(fs@, path@, sorting::views(picks@)),
            ) == Err::<Seq<OpSummaryView>, Seq<char>>(error@),
        },
{
    let ghost all = sorting::views(picks@);
    let mut list: Vec<LaneOpSummary> = Vec::new();
    let mut i: usize = 0;
    assert(all.subrange(0, 0) =~= Seq::empty());
    assert(sorting::views(list@) =~= Seq::empty());
    while i < picks.len()
        invariant
            i <= picks@.len(),
            fs.wf(),
            all == sorting::views(picks@),
            picked_summaries(fs@, path@, all.subrange(0, i as int)) == Ok::<
                Seq<OpSummaryView>,
                LaneFsErrorView,
            >(sorting::views(list@)),
        decreases picks@.len() - i,
    {
        proof {
            assert(all.subrange(0, i + 1).drop_last() =~= all.subrange(0, i as int));
            assert(all.subrange(0, i + 1).last() == picks@[i as int]@);
        }
        match fs.op_detail(picks[i].lane.as_str(), path, picks[i].op_id.as_str()) {
            Err(error) => {
                proof {
                    lemma_picked_error(fs@, path@, all, i as int);
                }
                return Err(CliError::from_fs(&error));
            },
            Ok(detail) => {
                let summary = detail.summary;
                proof {
                    lists::lemma_views_push(list@, summary);
                }
                list.push(summary);
            },
        }
        i = i + 1;
    }
    assert(all.subrange(0, i as int) =~= all);
    Ok(list)
}

/// Why operations that do not belong together are refused.
pub const GROUP_REASON: &'static str = "the selected operations are not in one group";

/// What accepting a conflict group comes to.
#[derive(Debug, PartialEq, Eq)]
pub struct AcceptReplacementOps {
    pub accepted_ops: Vec<LaneOpSummary>,
    pub promoted: Promoted,
}

/// Prepares the acceptance of operations of one conflict group with other bytes in their place.
pub fn accept_replacement_ops(
    fs: &LaneFs,
    path: &str,
    ops: &Vec<String>,
    replacement: Vec<u8>,
) -> (r: Result<AcceptReplacementOps, CliError>)
    requires
        fs.wf(),
    ensures
        match targets::group_selections(text::texts(ops@)) {
            Err(message) => r is Err && r->Err_0@ == message,
            Ok(picks) => match (
                picked_summaries(fs@, path@, picks),
                conflicted_at(fs@, text_map::listing(fs@.repo.lanes), path@),
            ) {
                (Err(error), _) => r is Err && r->Err_0@ == vfs::fs_error_message(error),
                (Ok(_), Err(error)) => r is Err && r->Err_0@ == vfs::fs_error_message(error),
                (Ok(selected), Ok(conflicted)) => if !in_one_group(conflicted, names_of(selected)) {
                    r is Err && r->Err_0@ == targets::group_error_message(
                        LaneFsErrorView::Lane(
                            LaneErrorView::InvalidOperationSelection(path@, GROUP_REASON@),
                        ),
                    )
                } else {
                    match combine::fs_combine(fs@, path@, picks, replacement@) {
                        Err(error) => r is Err && r->Err_0@ == targets::group_error_message(error),
                        Ok((files, after)) => {
                            &&& r is Ok
                            &&& sorting::views(r->Ok_0.accepted_ops@) == selected
                            &&& r->Ok_0.promoted.repo.wf()
                            &&& r->Ok_0.promoted.repo@ == after
                            &&& sorting::views(r->Ok_0.promoted.files@) == files
                        },
                    }
                },
            },
        },
{
    let picks = match parse_lane_op_selections(ops) {
        Err(error) => {
            return Err(error);
        },
        Ok(picks) => picks,
    };
    let accepted_ops = match summaries_of(fs, path, &picks) {
        Err(error) => {
            return Err(error);
        },
        Ok(list) => list,
    };
    let lanes = match review_lanes(fs, None) {
        Err(error) => {
            return Err(error);
        },
        Ok(lanes) => lanes,
    };
    let conflicted = match conflicted_ops(fs, &lanes, path) {
        Err(error) => {
            return Err(error);
        },
        Ok(list) => list,
    };
    if !are_in_one_group(&conflicted, &accepted_ops) {
        let error = LaneFsError::Lane(
            LaneError::InvalidOperationSelection {
                path: path.to_owned(),
                reason: GROUP_REASON.to_owned(),
            },
        );
        return Err(accept_replacement_ops_cli_error(&error));
    }
    match fs.accept_replacement_ops_file(path, &picks, replacement) {
        Err(error) => Err(accept_replacement_ops_cli_error(&error)),
        Ok(promoted) => Ok(AcceptReplacementOps { accepted_ops, promoted }),
    }
}

/// The operations that a review lists as a group are operations of one group.
pub proof fn law_reviewed_group_is_one_group(ops: Seq<ReviewOpView>, i: int)
    requires
        0 <= i < ops.len(),
    ensures
        in_one_group(ops, reviewed_names(groups::group_of(ops, i))),
{
    broadcast use vstd::seq_lib::group_to_multiset_ensures;

    let members = groups::members_upto(ops, i, ops.len() as int);
    let listed = groups::group_of(ops, i);
    let names = reviewed_names(listed);
    sorting::law_ordered::<ReviewOpOutput>(members);
    assert forall|n: int| 0 <= n < names.len() implies group_names(ops, i, #[trigger] names[n]) by {
        assert(listed.contains(listed[n]));
        assert(listed.to_multiset().count(listed[n]) > 0);
        assert(members.contains(listed[n]));
        lemma_member(ops, i, ops.len() as int, listed[n]);
    }
    assert(group_holds(ops, i, names));
}

/// The names of reviewed operations.
pub open spec fn reviewed_names(list: Seq<ReviewOpView>) -> Seq<Seq<char>> {
    Seq::new(list.len(), |i: int| list[i].op.op_id)
}

proof fn lemma_member(ops: Seq<ReviewOpView>, i: int, n: int, op: ReviewOpView)
    requires
        0 <= n <= ops.len(),
        groups::members_upto(ops, i, n).contains(op),
    ensures
        group_names(ops, i, op.op.op_id),
    decreases n,
{
    if n > 0 {
        let before = groups::members_upto(ops, i, n - 1);
        let k = choose|k: int|
            0 <= k < groups::members_upto(ops, i, n).len() && groups::members_upto(ops, i, n)[k] == op;
        if groups::grouped(ops, i, n - 1) && k == before.len() {
            assert(ops[n - 1].op.op_id == op.op.op_id);
        } else {
            assert(before[k] == op);
            lemma_member(ops, i, n - 1, op);
        }
    }
}

} // verus!
