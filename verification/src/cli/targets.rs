//! What the arguments of a command ask for.
use vstd::prelude::*;

use crate::cli::error::CliError;
use crate::combine::LaneOpSelection;
use crate::sorting;
use crate::text;
use crate::text::rsplit_once;
use crate::types;
use crate::types::{debug_quoted, LaneError, LaneErrorView};
use crate::vfs;
use crate::vfs::{LaneFsError, LaneFsErrorView};

verus! {

/// What a review command asks for.
#[derive(Debug, PartialEq, Eq)]
pub enum ReviewRequest {
    History,
    AllLanes,
    Diff { lane: String, paths: Vec<String> },
    Named { target: String },
    Detail { lane: String, path: String, op_id: String },
}

/// A [`ReviewRequest`] with its texts as character sequences.
pub enum ReviewRequestView {
    History,
    AllLanes,
    Diff(Seq<char>, Seq<Seq<char>>),
    Named(Seq<char>),
    Detail(Seq<char>, Seq<char>, Seq<char>),
}

impl View for ReviewRequest {
    type V = ReviewRequestView;

    open spec fn view(&self) -> ReviewRequestView {
        match self {
            ReviewRequest::History => ReviewRequestView::History,
            ReviewRequest::AllLanes => ReviewRequestView::AllLanes,
            ReviewRequest::Diff { lane, paths } => ReviewRequestView::Diff(
                lane@,
                text::texts(paths@),
            ),
            ReviewRequest::Named { target } => ReviewRequestView::Named(target@),
            ReviewRequest::Detail { lane, path, op_id } => ReviewRequestView::Detail(
                lane@,
                path@,
                op_id@,
            ),
        }
    }
}

/// What the arguments of a review command ask for, or why they are refused.
pub open spec fn review_request(
    history: bool,
    diff: bool,
    target: Option<Seq<char>>,
    detail: Seq<Seq<char>>,
) -> Result<ReviewRequestView, Seq<char>> {
    if history {
        if target is Some || detail.len() > 0 || diff {
            Err("review --history cannot be combined with a target, detail args, or --diff"@)
        } else {
            Ok(ReviewRequestView::History)
        }
    } else {
        match target {
            None => if diff {
                Err("review --diff requires a lane target"@)
            } else if detail.len() > 0 {
                Err("review detail requires a target"@)
            } else {
                Ok(ReviewRequestView::AllLanes)
            },
            Some(target) => if diff {
                Ok(ReviewRequestView::Diff(target, detail))
            } else if detail.len() == 0 {
                Ok(ReviewRequestView::Named(target))
            } else if detail.len() == 2 {
                Ok(ReviewRequestView::Detail(target, detail[0], detail[1]))
            } else {
                Err(
                    "review detail accepts either <target> or <lane> <path> <op-id>; use --diff for path diffs"@,
                )
            },
        }
    }
}

/// What the arguments of a review command ask for.
pub fn review_target(
    history: bool,
    diff: bool,
    target: Option<String>,
    detail: Vec<String>,
) -> (r: Result<ReviewRequest, CliError>)
    ensures
        match r {
            Ok(request) => review_request(
                history,
                diff,
                text::opt_text(target),
                text::texts(detail@),
            ) == Ok::<ReviewRequestView, Seq<char>>(request@),
            Err(error) => review_request(
                history,
                diff,
                text::opt_text(target),
                text::texts(detail@),
            ) == Err::<ReviewRequestView, Seq<char>>(error@),
        },
{
    if history {
        if target.is_some() || detail.len() > 0 || diff {
            return Err(
                CliError::message(
                    "review --history cannot be combined with a target, detail args, or --diff",
                ),
            );
        }
        return Ok(ReviewRequest::History);
    }
    match target {
        None => if diff {
            Err(CliError::message("review --diff requires a lane target"))
        } else if detail.len() > 0 {
            Err(CliError::message("review detail requires a target"))
        } else {
            Ok(ReviewRequest::AllLanes)
        },
        Some(target) => if diff {
            Ok(ReviewRequest::Diff { lane: target, paths: detail })
        } else if detail.len() == 0 {
            Ok(ReviewRequest::Named { target })
        } else if detail.len() == 2 {
            assert(text::texts(detail@)[0] == detail@[0]@);
            assert(text::texts(detail@)[1] == detail@[1]@);
            Ok(
                ReviewRequest::Detail {
                    lane: target,
                    path: detail[0].clone(),
                    op_id: detail[1].clone(),
                },
            )
        } else {
            Err(
                CliError::message(
                    "review detail accepts either <target> or <lane> <path> <op-id>; use --diff for path diffs",
                ),
            )
        },
    }
}

/// What a name stands for.
#[derive(Clone, Copy, Debug, PartialEq, Eq, Structural)]
pub enum Named {
    Run,
    Lane,
}

/// What a name stands for, or what is told where that is not clear.
pub open spec fn named_target(
    verb: Seq<char>,
    target: Seq<char>,
    is_run: bool,
    is_lane: bool,
) -> Result<Named, Seq<char>> {
    if is_run && is_lane {
        Err(verb + " target "@ + types::debug_text(target) + " is both a run and a lane"@)
    } else if is_run {
        Ok(Named::Run)
    } else if is_lane {
        Ok(Named::Lane)
    } else {
        Err(verb + " target "@ + types::debug_text(target) + " is neither a run nor a lane"@)
    }
}

/// What a name stands for: a run or a lane, but not both.
pub fn resolve_target(verb: &str, target: &str, is_run: bool, is_lane: bool) -> (r: Result<
    Named,
    CliError,
>)
    ensures
        match r {
            Ok(named) => named_target(verb@, target@, is_run, is_lane) == Ok::<Named, Seq<char>>(
                named,
            ),
            Err(error) => named_target(verb@, target@, is_run, is_lane) == Err::<Named, Seq<char>>(
                error@,
            ),
        },
{
    if is_run && is_lane {
        let message = verb.to_owned().concat(" target ").concat(
            debug_quoted(target).as_str(),
        ).concat(" is both a run and a lane");
        Err(CliError::message(message.as_str()))
    } else if is_run {
        Ok(Named::Run)
    } else if is_lane {
        Ok(Named::Lane)
    } else {
        let message = verb.to_owned().concat(" target ").concat(
            debug_quoted(target).as_str(),
        ).concat(" is neither a run nor a lane");
        Err(CliError::message(message.as_str()))
    }
}

/// What a discard command asks for.
pub fn discard_target(target: &str, is_run: bool, is_lane: bool) -> (r: Result<Named, CliError>)
    ensures
        match r {
            Ok(named) => named_target("discard"@, target@, is_run, is_lane) == Ok::<
                Named,
                Seq<char>,
            >(named),
            Err(error) => named_target("discard"@, target@, is_run, is_lane) == Err::<
                Named,
                Seq<char>,
            >(error@),
        },
{
    resolve_target("discard", target, is_run, is_lane)
}

/// What an accept command asks for.
#[derive(Debug, PartialEq, Eq)]
pub enum AcceptRequest {
    Clean { lane: String },
    Ops { lane: String, path: String, ops: Vec<String> },
    Replacement { lane: String, path: String, op_id: String, with_file: String },
    Group { path: String, ops: Vec<String>, with_file: String },
}

/// An [`AcceptRequest`] with its texts as character sequences.
pub enum AcceptRequestView {
    Clean(Seq<char>),
    Ops(Seq<char>, Seq<char>, Seq<Seq<char>>),
    Replacement(Seq<char>, Seq<char>, Seq<char>, Seq<char>),
    Group(Seq<char>, Seq<Seq<char>>, Seq<char>),
}

impl View for AcceptRequest {
    type V = AcceptRequestView;

    open spec fn view(&self) -> AcceptRequestView {
        match self {
            AcceptRequest::Clean { lane } => AcceptRequestView::Clean(lane@),
            AcceptRequest::Ops { lane, path, ops } => AcceptRequestView::Ops(
                lane@,
                path@,
                text::texts(ops@),
            ),
            AcceptRequest::Replacement { lane, path, op_id, with_file } => {
                AcceptRequestView::Replacement(lane@, path@, op_id@, with_file@)
            },
            AcceptRequest::Group { path, ops, with_file } => AcceptRequestView::Group(
                path@,
                text::texts(ops@),
                with_file@,
            ),
        }
    }
}

/// What the arguments of an accept command ask for, or why they are refused.
pub open spec fn accept_request(
    target: Seq<char>,
    path: Option<Seq<char>>,
    ops: Seq<Seq<char>>,
    selected: Seq<Seq<char>>,
    with_file: Option<Seq<char>>,
) -> Result<AcceptRequestView, Seq<char>> {
    if selected.len() > 0 {
        if path is Some || ops.len() > 0 {
            Err(
                "accept with --op uses the form: accept <path> --op <lane:op>... --with-file <path>"@,
            )
        } else {
            match with_file {
                None => Err("accept with --op requires --with-file"@),
                Some(file) => Ok(AcceptRequestView::Group(target, selected, file)),
            }
        }
    } else {
        match path {
            None => if with_file is Some {
                Err("accept <lane> cannot use --with-file without <path> <op-id>"@)
            } else if ops.len() > 0 {
                Err("accept operation args require a path"@)
            } else {
                Ok(AcceptRequestView::Clean(target))
            },
            Some(path) => if ops.len() == 0 {
                Err("accept <lane> <path> requires at least one operation id"@)
            } else {
                match with_file {
                    None => Ok(AcceptRequestView::Ops(target, path, ops)),
                    Some(file) => if ops.len() != 1 {
                        Err(
                            "accept replacement for multiple operations requires --op <lane:op> selections"@,
                        )
                    } else {
                        Ok(AcceptRequestView::Replacement(target, path, ops[0], file))
                    },
                }
            },
        }
    }
}

/// What the arguments of an accept command ask for.
pub fn accept_target(
    target: String,
    path: Option<String>,
    ops: Vec<String>,
    selected: Vec<String>,
    with_file: Option<String>,
) -> (r: Result<AcceptRequest, CliError>)
    ensures
        match r {
            Ok(request) => accept_request(
                target@,
                text::opt_text(path),
                text::texts(ops@),
                text::texts(selected@),
                text::opt_text(with_file),
            ) == Ok::<AcceptRequestView, Seq<char>>(request@),
            Err(error) => accept_request(
                target@,
                text::opt_text(path),
                text::texts(ops@),
                text::texts(selected@),
                text::opt_text(with_file),
            ) == Err::<AcceptRequestView, Seq<char>>(error@),
        },
{
    if selected.len() > 0 {
        if path.is_some() || ops.len() > 0 {
            return Err(
                CliError::message(
                    "accept with --op uses the form: accept <path> --op <lane:op>... --with-file <path>",
                ),
            );
        }
        return match with_file {
            None => Err(CliError::message("accept with --op requires --with-file")),
            Some(file) => Ok(AcceptRequest::Group { path: target, ops: selected, with_file: file }),
        };
    }
    match path {
        None => if with_file.is_some() {
            Err(
                CliError::message(
                    "accept <lane> cannot use --with-file without <path> <op-id>",
                ),
            )
        } else if ops.len() > 0 {
            Err(CliError::message("accept operation args require a path"))
        } else {
            Ok(AcceptRequest::Clean { lane: target })
        },
        Some(path) => if ops.len() == 0 {
            Err(CliError::message("accept <lane> <path> requires at least one operation id"))
        } else {
            match with_file {
                None => Ok(AcceptRequest::Ops { lane: target, path, ops }),
                Some(file) => if ops.len() != 1 {
                    Err(
                        CliError::message(
                            "accept replacement for multiple operations requires --op <lane:op> selections",
                        ),
                    )
                } else {
                    assert(text::texts(ops@)[0] == ops@[0]@);
                    Ok(
                        AcceptRequest::Replacement {
                            lane: target,
                            path,
                            op_id: ops[0].clone(),
                            with_file: file,
                        },
                    )
                },
            }
        },
    }
}

/// The lane that the name of an operation begins with.
pub open spec fn selected_lane(op_id: Seq<char>) -> Option<Seq<char>> {
    match text::split_last(op_id, ':') {
        Some((lane, suffix)) => if lane.len() > 0 && suffix.len() > 0 {
            Some(lane)
        } else {
            None
        },
        None => None,
    }
}

/// Selections of operations with their lanes, or what is told of the first that names none.
pub open spec fn lane_selections(ops: Seq<Seq<char>>) -> Result<
    Seq<(Seq<char>, Seq<char>)>,
    Seq<char>,
>
    decreases ops.len(),
{
    if ops.len() == 0 {
        Ok(Seq::empty())
    } else {
        match lane_selections(ops.drop_last()) {
            Err(error) => Err(error),
            Ok(list) => match selected_lane(ops.last()) {
                Some(lane) => Ok(list.push((lane, ops.last()))),
                None => Err("accept --op value must be lane-qualified: "@ + ops.last()),
            },
        }
    }
}

/// What is selected for one replacement: at least two operations, each with its lane.
pub open spec fn group_selections(ops: Seq<Seq<char>>) -> Result<
    Seq<(Seq<char>, Seq<char>)>,
    Seq<char>,
> {
    if ops.len() < 2 {
        Err("accept requires at least two --op values from one conflict group"@)
    } else {
        lane_selections(ops)
    }
}

proof fn lemma_selections_error(ops: Seq<Seq<char>>, i: int)
    requires
        0 <= i < ops.len(),
        lane_selections(ops.subrange(0, i + 1)) is Err,
    ensures
        lane_selections(ops) == lane_selections(ops.subrange(0, i + 1)),
    decreases ops.len(),
{
    if i + 1 == ops.len() {
        assert(ops.subrange(0, i + 1) =~= ops);
    } else {
        let rest = ops.drop_last();
        assert(rest.subrange(0, i + 1) =~= ops.subrange(0, i + 1));
        lemma_selections_error(rest, i);
    }
}

fn lane_of_op(op_id: &str) -> (r: Option<String>)
    ensures
        text::opt_text(r) == selected_lane(op_id@),
{
    match rsplit_once(op_id, ':') {
        Some((lane, suffix)) => if lane.as_str().is_empty() || suffix.as_str().is_empty() {
            None
        } else {
            Some(lane)
        },
        None => None,
    }
}

/// The operations that are to be accepted with one replacement.
pub fn parse_lane_op_selections(ops: &Vec<String>) -> (r: Result<Vec<LaneOpSelection>, CliError>)
    ensures
        match r {
            Ok(list) => group_selections(text::texts(ops@)) == Ok::<
                Seq<(Seq<char>, Seq<char>)>,
                Seq<char>,
            >(sorting::views(list@)),
            Err(error) => group_selections(text::texts(ops@)) == Err::<
                Seq<(Seq<char>, Seq<char>)>,
                Seq<char>,
            >(error@),
        },
{
    if ops.len() < 2 {
        return Err(
            CliError::message(
                "accept requires at least two --op values from one conflict group",
            ),
        );
    }
    let ghost all = text::texts(ops@);
    let mut list: Vec<LaneOpSelection> = Vec::new();
    let mut i: usize = 0;
    assert(all.subrange(0, 0) =~= Seq::empty());
    assert(sorting::views(list@) =~= Seq::empty());
    while i < ops.len()
        invariant
            2 <= ops@.len(),
            i <= ops@.len(),
            all == text::texts(ops@),
            lane_selections(all.subrange(0, i as int)) == Ok::<
                Seq<(Seq<char>, Seq<char>)>,
                Seq<char>,
            >(sorting::views(list@)),
        decreases ops@.len() - i,
    {
        let ghost before = sorting::views(list@);
        let op_id = &ops[i];
        proof {
            assert(all.subrange(0, i + 1).drop_last() =~= all.subrange(0, i as int));
            assert(all.subrange(0, i + 1).last() == op_id@);
        }
        match lane_of_op(op_id.as_str()) {
            Some(lane) => {
                let ghost named = (lane@, op_id@);
                list.push(LaneOpSelection { lane, op_id: op_id.clone() });
                assert(sorting::views(list@) =~= before.push(named));
            },
            None => {
                proof {
                    lemma_selections_error(all, i as int);
                }
                let message = "accept --op value must be lane-qualified: ".to_owned().concat(
                    op_id.as_str(),
                );
                return Err(CliError::message(message.as_str()));
            },
        }
        i = i + 1;
    }
    assert(all.subrange(0, i as int) =~= all);
    Ok(list)
}

/// What is told where a replacement of several operations fails.
pub open spec fn group_error_message(error: LaneFsErrorView) -> Seq<char> {
    match error {
        LaneFsErrorView::Lane(LaneErrorView::InvalidOperationSelection(_, reason)) => {
            "accept can only combine ops from one conflict group: "@ + reason
        },
        _ => vfs::fs_error_message(error),
    }
}

/// What is told where a replacement of several operations fails.
pub fn accept_replacement_ops_cli_error(error: &LaneFsError) -> (r: CliError)
    ensures
        r@ == group_error_message(error@),
{
    match error {
        LaneFsError::Lane(LaneError::InvalidOperationSelection { path: _, reason }) => {
            CliError::message(
                "accept can only combine ops from one conflict group: ".to_owned().concat(
                    reason.as_str(),
                ).as_str(),
            )
        },
        _ => CliError::from_fs(error),
    }
}

} // verus!
