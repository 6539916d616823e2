//! Acceptance of lane operations, and the text of a lane's differences.
use vstd::prelude::*;

use crate::cli::error::CliError;
use crate::cli::review;
use crate::cli::review::collect_changes;
use crate::commit;
use crate::commit::{PathOps, Promoted};
use crate::lane_file;
use crate::lists;
use crate::promotion;
use crate::repo;
use crate::sorting;
use crate::text;
use crate::text::{contains_text, copy_texts, text_ends_with};
use crate::types;
use crate::types::{LaneOpSummary, OpSummaryView};
use crate::utf8_text;
use crate::utf8_text::utf8_text;
use crate::vfs;
use crate::vfs::{copy_opt_bytes, ChangeView, Fs, LaneFileChange, LaneFs, LaneFsErrorView};

verus! {

/// Which operations of a change are kept.
pub enum Keep<'a> {
    Clean,
    Conflicted,
    Named(&'a Vec<String>),
}

/// A [`Keep`] with its texts as character sequences.
pub enum KeepView {
    Clean,
    Conflicted,
    Named(Seq<Seq<char>>),
}

impl<'a> View for Keep<'a> {
    type V = KeepView;

    open spec fn view(&self) -> KeepView {
        match self {
            Keep::Clean => KeepView::Clean,
            Keep::Conflicted => KeepView::Conflicted,
            Keep::Named(names) => KeepView::Named(text::texts(names@)),
        }
    }
}

/// Whether an operation is kept.
pub open spec fn keeps(keep: KeepView, op: OpSummaryView) -> bool {
    match keep {
        KeepView::Clean => op.conflicts_with.len() == 0,
        KeepView::Conflicted => op.conflicts_with.len() > 0,
        KeepView::Named(names) => names.contains(op.op_id),
    }
}

/// The operations that are kept.
pub open spec fn kept_ops(keep: KeepView, ops: Seq<OpSummaryView>) -> Seq<OpSummaryView> {
    ops.filter(|op: OpSummaryView| keeps(keep, op))
}

/// The changes with the operations that are kept; those without any are dropped.
pub open spec fn kept_changes(keep: KeepView, changes: Seq<ChangeView>) -> Seq<ChangeView>
    decreases changes.len(),
{
    if changes.len() == 0 {
        Seq::empty()
    } else {
        let rest = kept_changes(keep, changes.drop_last());
        let ops = kept_ops(keep, changes.last().ops);
        if ops.len() == 0 {
            rest
        } else {
            rest.push(ChangeView { ops, ..changes.last() })
        }
    }
}

fn is_kept(keep: &Keep, op: &LaneOpSummary) -> (r: bool)
    ensures
        r == keeps(keep@, op@),
{
    match keep {
        Keep::Clean => op.conflicts_with.len() == 0,
        Keep::Conflicted => op.conflicts_with.len() > 0,
        Keep::Named(names) => contains_text(names, op.op_id.as_str()),
    }
}

fn keep_ops(keep: &Keep, ops: &Vec<LaneOpSummary>) -> (r: Vec<LaneOpSummary>)
    ensures
        types::summary_views(r@) == kept_ops(keep@, types::summary_views(ops@)),
{
    let ghost all = types::summary_views(ops@);
    let ghost p = |op: OpSummaryView| keeps(keep@, op);
    let mut r: Vec<LaneOpSummary> = Vec::new();
    let mut i: usize = 0;
    reveal(Seq::filter);
    assert(all.subrange(0, 0) =~= Seq::empty());
    assert(types::summary_views(r@) =~= Seq::empty());
    while i < ops.len()
        invariant
            i <= ops@.len(),
            all == types::summary_views(ops@),
            p == (|op: OpSummaryView| keeps(keep@, op)),
            types::summary_views(r@) == all.subrange(0, i as int).filter(p),
        decreases ops@.len() - i,
    {
        let ghost before = types::summary_views(r@);
        reveal(Seq::filter);
        assert(all.subrange(0, i + 1).drop_last() =~= all.subrange(0, i as int));
        assert(all.subrange(0, i + 1).last() == ops@[i as int]@);
        if is_kept(keep, &ops[i]) {
            r.push(ops[i].copy());
            assert(types::summary_views(r@) =~= before.push(ops@[i as int]@));
        }
        i = i + 1;
    }
    assert(all.subrange(0, i as int) =~= all);
    r
}

/// The changes with the operations that are kept.
pub fn filter_change_ops(changes: &Vec<LaneFileChange>, keep: &Keep) -> (r: Vec<LaneFileChange>)
    ensures
        sorting::views(r@) == kept_changes(keep@, sorting::views(changes@)),
{
    let ghost all = sorting::views(changes@);
    let mut r: Vec<LaneFileChange> = Vec::new();
    let mut i: usize = 0;
    assert(sorting::views(r@) =~= Seq::empty());
    while i < changes.len()
        invariant
            i <= changes@.len(),
            all == sorting::views(changes@),
            sorting::views(r@) == kept_changes(keep@, all.subrange(0, i as int)),
        decreases changes@.len() - i,
    {
        let change = &changes[i];
        proof {
            assert(all.subrange(0, i + 1).drop_last() =~= all.subrange(0, i as int));
            assert(all.subrange(0, i + 1).last() == change@);
        }
        let ops = keep_ops(keep, &change.ops);
        assert(types::summary_views(ops@).len() == ops@.len());
        if ops.len() > 0 {
            let kept = LaneFileChange {
                path: change.path.clone(),
                status: change.status,
                base_size: change.base_size,
                lane_size: change.lane_size,
                ops,
                base_bytes: copy_opt_bytes(&change.base_bytes),
                lane_bytes: copy_opt_bytes(&change.lane_bytes),
            };
            proof {
                lists::lemma_views_push(r@, kept);
                assert(kept@ =~= ChangeView { ops: kept_ops(keep@, change@.ops), ..change@ });
            }
            r.push(kept);
        }
        i = i + 1;
    }
    assert(all.subrange(0, i as int) =~= all);
    r
}

/// The operations of changes, path by path.
pub open spec fn grouped_names(changes: Seq<ChangeView>) -> Seq<(Seq<char>, Seq<Seq<char>>)> {
    changes.map_values(
        |change: ChangeView|
            (change.path, change.ops.map_values(|op: OpSummaryView| op.op_id)),
    )
}

fn op_names(ops: &Vec<LaneOpSummary>) -> (r: Vec<String>)
    ensures
        text::texts(r@) == types::summary_views(ops@).map_values(|op: OpSummaryView| op.op_id),
{
    let mut names: Vec<String> = Vec::new();
    let mut i: usize = 0;
    while i < ops.len()
        invariant
            i <= ops@.len(),
            names@.len() == i,
            forall|k: int| 0 <= k < i ==> (#[trigger] names@[k])@ == ops@[k].op_id@,
        decreases ops@.len() - i,
    {
        names.push(ops[i].op_id.clone());
        i = i + 1;
    }
    assert(text::texts(names@) =~= types::summary_views(ops@).map_values(
        |op: OpSummaryView| op.op_id,
    ));
    names
}

/// The operations of changes, path by path.
pub fn grouped_ops(changes: &Vec<LaneFileChange>) -> (r: Vec<PathOps>)
    ensures
        sorting::views(r@) == grouped_names(sorting::views(changes@)),
{
    let mut r: Vec<PathOps> = Vec::new();
    let mut i: usize = 0;
    while i < changes.len()
        invariant
            i <= changes@.len(),
            r@.len() == i,
            forall|k: int|
                0 <= k < i ==> (#[trigger] r@[k])@ == (
                    changes@[k]@.path,
                    changes@[k]@.ops.map_values(|op: OpSummaryView| op.op_id),
                ),
        decreases changes@.len() - i,
    {
        r.push(PathOps { path: changes[i].path.clone(), ops: op_names(&changes[i].ops) });
        i = i + 1;
    }
    assert(sorting::views(r@) =~= grouped_names(sorting::views(changes@)));
    r
}

/// What accepting the clean operations of a lane comes to. Without clean operations there is
/// nothing to carry out.
#[derive(Debug, PartialEq, Eq)]
pub struct AcceptClean {
    pub accepted_ops: Vec<PathOps>,
    pub accepted: Vec<LaneFileChange>,
    pub conflicts: Vec<LaneFileChange>,
    pub promoted: Option<Promoted>,
}

/// The clean operations of a lane, path by path.
pub open spec fn clean_selections(changes: Seq<ChangeView>) -> Seq<(Seq<char>, Seq<Seq<char>>)> {
    grouped_names(kept_changes(KeepView::Clean, changes))
}

/// What accepting the clean operations of a lane must come to.
pub open spec fn accepts_clean(
    fs: Fs,
    lane: Seq<char>,
    changes: Seq<ChangeView>,
    accepted: AcceptClean,
) -> bool {
    &&& sorting::views(accepted.accepted_ops@) == clean_selections(changes)
    &&& sorting::views(accepted.accepted@) == kept_changes(KeepView::Clean, changes)
    &&& sorting::views(accepted.conflicts@) == kept_changes(KeepView::Conflicted, changes)
    &&& match accepted.promoted {
        None => clean_selections(changes).len() == 0,
        Some(promoted) => {
            &&& clean_selections(changes).len() > 0
            &&& promoted.repo.wf()
            &&& commit::fs_promote(fs, lane, clean_selections(changes)) == commit::promoted_view(
                Ok(promoted),
            )
        },
    }
}

/// What is told where the clean operations of a lane cannot be accepted.
pub open spec fn accept_clean_error(fs: Fs, lane: Seq<char>) -> Option<LaneFsErrorView> {
    match review::lane_changes(fs, lane) {
        Err(error) => Some(error),
        Ok(changes) => if clean_selections(changes).len() == 0 {
            None
        } else {
            match commit::fs_promote(fs, lane, clean_selections(changes)) {
                Err(error) => Some(error),
                Ok(_) => None,
            }
        },
    }
}

/// Prepares the acceptance of every operation of a lane that conflicts with no other lane.
pub fn accept_clean(fs: &LaneFs, lane: &str) -> (r: Result<AcceptClean, CliError>)
    requires
        fs.wf(),
    ensures
        match r {
            Ok(accepted) => {
                &&& accept_clean_error(fs@, lane@) is None
                &&& accepts_clean(fs@, lane@, review::lane_changes(fs@, lane@)->Ok_0, accepted)
            },
            Err(error) => {
                &&& accept_clean_error(fs@, lane@) is Some
                &&& error@ == vfs::fs_error_message(accept_clean_error(fs@, lane@)->0)
            },
        },
{
    let before = match collect_changes(fs, lane) {
        Err(error) => {
            return Err(error);
        },
        Ok(changes) => changes,
    };
    let accepted = filter_change_ops(&before, &Keep::Clean);
    let conflicts = filter_change_ops(&before, &Keep::Conflicted);
    let accepted_ops = grouped_ops(&accepted);
    assert(sorting::views(accepted_ops@).len() == accepted_ops@.len());
    if accepted_ops.len() == 0 {
        return Ok(AcceptClean { accepted_ops, accepted, conflicts, promoted: None });
    }
    match fs.promote_ops_files(lane, &accepted_ops) {
        Err(error) => Err(CliError::from_fs(&error)),
        Ok(promoted) => Ok(
            AcceptClean { accepted_ops, accepted, conflicts, promoted: Some(promoted) },
        ),
    }
}

/// What accepting named operations of a lane comes to.
#[derive(Debug, PartialEq, Eq)]
pub struct AcceptOps {
    pub accepted: Vec<LaneFileChange>,
    pub promoted: Promoted,
}

/// The changes of a lane at one path: one or none.
pub open spec fn changes_at_path(fs: Fs, lane: Seq<char>, path: Seq<char>) -> Result<
    Seq<ChangeView>,
    LaneFsErrorView,
> {
    match vfs::fs_change(fs, lane, path) {
        Err(error) => Err(error),
        Ok(None) => Ok(Seq::empty()),
        Ok(Some(change)) => Ok(seq![change]),
    }
}

/// Prepares the acceptance of named operations of a lane at a path.
pub fn accept_ops(fs: &LaneFs, lane: &str, path: &str, ops: &Vec<String>) -> (r: Result<
    AcceptOps,
    CliError,
>)
    requires
        fs.wf(),
    ensures
        match changes_at_path(fs@, lane@, path@) {
            Err(error) => r is Err && r->Err_0@ == vfs::fs_error_message(error),
            Ok(changes) => match commit::fs_promote(
                fs@,
                lane@,
                seq![(path@, text::texts(ops@))],
            ) {
                Err(error) => r is Err && r->Err_0@ == vfs::fs_error_message(error),
                Ok((files, after)) => {
                    &&& r is Ok
                    &&& r->Ok_0.promoted.repo.wf()
                    &&& r->Ok_0.promoted.repo@ == after
                    &&& sorting::views(r->Ok_0.promoted.files@) == files
                    &&& sorting::views(r->Ok_0.accepted@) == kept_changes(
                        KeepView::Named(text::texts(ops@)),
                        changes,
                    )
                },
            },
        },
{
    let mut before: Vec<LaneFileChange> = Vec::new();
    match fs.change_for_path(lane, path) {
        Err(error) => {
            return Err(CliError::from_fs(&error));
        },
        Ok(None) => {
            assert(sorting::views(before@) =~= Seq::empty());
        },
        Ok(Some(change)) => {
            let ghost shown = change@;
            before.push(change);
            assert(sorting::views(before@) =~= seq![shown]);
        },
    }
    let mut selections: Vec<PathOps> = Vec::new();
    selections.push(PathOps { path: path.to_owned(), ops: copy_texts(ops) });
    assert(sorting::views(selections@) =~= seq![(path@, text::texts(ops@))]);
    match fs.promote_ops_files(lane, &selections) {
        Err(error) => Err(CliError::from_fs(&error)),
        Ok(promoted) => Ok(
            AcceptOps { accepted: filter_change_ops(&before, &Keep::Named(ops)), promoted },
        ),
    }
}

/// What accepting an operation with other bytes comes to.
#[derive(Debug, PartialEq, Eq)]
pub struct AcceptReplacement {
    pub accepted_op: LaneOpSummary,
    pub promoted: Promoted,
}

/// Prepares the acceptance of an operation of a lane with other bytes in its place.
pub fn accept_replacement_op(
    fs: &LaneFs,
    lane: &str,
    path: &str,
    op_id: &str,
    replacement: Vec<u8>,
) -> (r: Result<AcceptReplacement, CliError>)
    requires
        fs.wf(),
        vfs::repo_path(path@) matches Ok(label) ==> fs@.repo.files.contains_key(label)
            ==> promotion::ids_can_grow(fs@.repo.files[label], lane@),
    ensures
        match vfs::fs_op_detail(fs@, lane@, path@, op_id@) {
            Err(error) => r is Err && r->Err_0@ == vfs::fs_error_message(error),
            Ok(detail) => match commit::fs_resolve(fs@, lane@, path@, op_id@, replacement@) {
                Err(error) => r is Err && r->Err_0@ == vfs::fs_error_message(error),
                Ok((files, after)) => {
                    &&& r is Ok
                    &&& r->Ok_0.accepted_op@ == detail.summary
                    &&& r->Ok_0.promoted.repo.wf()
                    &&& r->Ok_0.promoted.repo@ == after
                    &&& sorting::views(r->Ok_0.promoted.files@) == files
                },
            },
        },
{
    let detail = match fs.op_detail(lane, path, op_id) {
        Err(error) => {
            return Err(CliError::from_fs(&error));
        },
        Ok(detail) => detail,
    };
    match fs.resolve_op_file(lane, path, op_id, replacement) {
        Err(error) => Err(CliError::from_fs(&error)),
        Ok(promoted) => Ok(AcceptReplacement { accepted_op: detail.summary, promoted }),
    }
}

/// Discards a lane, and says whether it existed and how many changes it had.
pub fn discard(fs: &mut LaneFs, lane: &str) -> (r: (bool, usize))
    requires
        old(fs).wf(),
    ensures
        final(fs).wf(),
        final(fs)@ == (Fs { repo: repo::repo_discard(old(fs)@.repo, lane@), ..old(fs)@ }),
        r.0 == old(fs)@.repo.lanes.contains(lane@),
        r.1 == match review::lane_changes(old(fs)@, lane@) {
            Ok(changes) => changes.len(),
            Err(_) => 0,
        },
{
    let discarded_changes: usize = match collect_changes(fs, lane) {
        Ok(changes) => {
            assert(sorting::views(changes@).len() == changes@.len());
            changes.len()
        },
        Err(_) => 0,
    };
    let removed = fs.discard_lane(lane);
    (removed, discarded_changes)
}

/// The unified diff of two texts, as `similar` writes it, under the given names.
pub uninterp spec fn unified_diff(
    old_text: Seq<char>,
    new_text: Seq<char>,
    old_name: Seq<char>,
    new_name: Seq<char>,
) -> Seq<char>;

/// `similar::TextDiff::from_lines` of two texts, written with `unified_diff` and a header. The
/// result is named, and nothing more is claimed of it.
#[verifier::external_body]
fn unified_diff_text(old_text: &str, new_text: &str, old_name: &str, new_name: &str) -> (r: String)
    ensures
        r@ == unified_diff(old_text@, new_text@, old_name@, new_name@),
{
    similar::TextDiff::from_lines(old_text, new_text)
        .unified_diff()
        .header(old_name, new_name)
        .to_string()
}

/// A diff with a line break at its end.
pub open spec fn closed_diff(diff: Seq<char>) -> Seq<char> {
    if text::ends_with(diff, "\n"@) {
        diff
    } else {
        diff + "\n"@
    }
}

/// A diff with a line break at its end.
pub fn close_diff(diff: String) -> (r: String)
    ensures
        r@ == closed_diff(diff@),
{
    if text_ends_with(diff.as_str(), "\n") {
        diff
    } else {
        diff.concat("\n")
    }
}

/// The text of a change: a unified diff, or a line that says that the files are no texts.
pub open spec fn diff_text(lane: Seq<char>, change: ChangeView) -> Seq<char> {
    let base = utf8_text::utf8_text_of(lane_file::base_bytes(change.base_bytes));
    let shown = utf8_text::utf8_text_of(lane_file::base_bytes(change.lane_bytes));
    if base is Some && shown is Some {
        closed_diff(
            unified_diff(base->0, shown->0, "base/"@ + change.path, lane + "/"@ + change.path),
        )
    } else {
        "binary files differ: "@ + change.path + "\n"@
    }
}

/// What is shown of a change from `old` to `new`. Where both are UTF-8, it is the unified diff of
/// the two texts, ended by a line break. Only where one of them is not, it is the line that says
/// that the files differ.
pub open spec fn shows_difference(
    lane: Seq<char>,
    path: Seq<char>,
    old: Seq<u8>,
    new: Seq<u8>,
    shown: Seq<char>,
) -> bool {
    if vstd::utf8::valid_utf8(old) && vstd::utf8::valid_utf8(new) {
        let diff = unified_diff(
            vstd::utf8::decode_utf8(old),
            vstd::utf8::decode_utf8(new),
            "base/"@ + path,
            lane + "/"@ + path,
        );
        &&& shown == diff || shown == diff.push('\n')
        &&& shown.len() > 0 && shown.last() == '\n'
        &&& diff.len() > 0 && diff.last() == '\n' ==> shown == diff
    } else {
        shown == ("binary files differ: "@ + path).push('\n')
    }
}

/// Closing a diff ends it with one line break.
proof fn lemma_closed_diff(diff: Seq<char>)
    ensures
        closed_diff(diff) == diff || closed_diff(diff) == diff.push('\n'),
        closed_diff(diff).len() > 0 && closed_diff(diff).last() == '\n',
        diff.len() > 0 && diff.last() == '\n' ==> closed_diff(diff) == diff,
{
    reveal_strlit("\n");
    let end = "\n"@;
    assert(end =~= seq!['\n']);
    if text::ends_with(diff, end) {
        assert(diff.subrange(diff.len() - 1, diff.len() as int)[0] == '\n');
    } else {
        assert(diff + end =~= diff.push('\n'));
        if diff.len() > 0 && diff.last() == '\n' {
            assert(diff.subrange(diff.len() - 1, diff.len() as int) =~= end);
        }
    }
}

/// A change is shown as the unified diff of the text of the base and the text of the lane, wherever
/// both are texts. A file that is missing on a side counts as no bytes there, so that files that
/// are created or deleted are shown like any others, against the empty text.
pub proof fn law_texts_are_shown_as_a_diff(lane: Seq<char>, change: ChangeView)
    ensures
        shows_difference(
            lane,
            change.path,
            change.base_bytes.unwrap_or(Seq::empty()),
            change.lane_bytes.unwrap_or(Seq::empty()),
            diff_text(lane, change),
        ),
        vstd::utf8::valid_utf8(Seq::empty()) && vstd::utf8::decode_utf8(Seq::empty()) == Seq::<
            char,
        >::empty(),
{
    let old = change.base_bytes.unwrap_or(Seq::empty());
    let new = change.lane_bytes.unwrap_or(Seq::empty());
    assert(vstd::utf8::decode_utf8(Seq::empty()) =~= Seq::<char>::empty());
    if vstd::utf8::valid_utf8(old) && vstd::utf8::valid_utf8(new) {
        lemma_closed_diff(
            unified_diff(
                vstd::utf8::decode_utf8(old),
                vstd::utf8::decode_utf8(new),
                "base/"@ + change.path,
                lane + "/"@ + change.path,
            ),
        );
    } else {
        reveal_strlit("\n");
        assert("\n"@ =~= seq!['\n']);
        assert(diff_text(lane, change) =~= ("binary files differ: "@ + change.path).push('\n'));
    }
}

fn opt_utf8(bytes: &Option<Vec<u8>>) -> (r: Option<String>)
    ensures
        text::opt_text(r) == utf8_text::utf8_text_of(
            lane_file::base_bytes(lane_file::opt_vec(*bytes)),
        ),
{
    match bytes {
        Some(bytes) => utf8_text(bytes.as_slice()),
        None => {
            let none: Vec<u8> = Vec::new();
            utf8_text(none.as_slice())
        },
    }
}

/// The text of a change.
pub fn format_diff(lane: &str, change: &LaneFileChange) -> (r: String)
    ensures
        r@ == diff_text(lane@, change@),
        shows_difference(
            lane@,
            change.path@,
            change@.base_bytes.unwrap_or(Seq::empty()),
            change@.lane_bytes.unwrap_or(Seq::empty()),
            r@,
        ),
{
    proof {
        law_texts_are_shown_as_a_diff(lane@, change@);
    }
    let base = opt_utf8(&change.base_bytes);
    let shown = opt_utf8(&change.lane_bytes);
    match (base, shown) {
        (Some(base), Some(shown)) => {
            let old_name = "base/".to_owned().concat(change.path.as_str());
            let new_name = lane.to_owned().concat("/").concat(change.path.as_str());
            close_diff(
                unified_diff_text(
                    base.as_str(),
                    shown.as_str(),
                    old_name.as_str(),
                    new_name.as_str(),
                ),
            )
        },
        _ => "binary files differ: ".to_owned().concat(change.path.as_str()).concat("\n"),
    }
}

proof fn lemma_kept_ops_split(ops: Seq<OpSummaryView>)
    ensures
        kept_ops(KeepView::Clean, ops).len() + kept_ops(KeepView::Conflicted, ops).len()
            == ops.len(),
    decreases ops.len(),
{
    reveal(Seq::filter);
    if ops.len() > 0 {
        lemma_kept_ops_split(ops.drop_last());
    }
}

/// Every operation of a change is either accepted or left as a conflict when the clean ones are
/// accepted.
pub proof fn law_accept_clean_leaves_only_conflicts(op: OpSummaryView, ops: Seq<OpSummaryView>)
    ensures
        keeps(KeepView::Clean, op) != keeps(KeepView::Conflicted, op),
        kept_ops(KeepView::Clean, ops).len() + kept_ops(KeepView::Conflicted, ops).len()
            == ops.len(),
{
    lemma_kept_ops_split(ops);
}

} // verus!
