//! What holds of what is listed and accepted.
use vstd::prelude::*;

use crate::cli::accept;
use crate::cli::accept::KeepView;
use crate::cli::groups;
use crate::cli::orchestrate;
use crate::cli::output::{ReviewLaneSummaryView, ReviewOpView};
use crate::cli::preview;
use crate::cli::records::{AttemptRecordView, CheckRecordView, CompareCheckView};
use crate::cli::review;
use crate::conflict_laws;
use crate::lane_file;
use crate::lane_file::Entry;
use crate::op_id;
use crate::repo;
use crate::repo::Repo;
use crate::text_map;
use crate::types;
use crate::types::{LaneErrorView, OpSummaryView};
use crate::upkeep;
use crate::vfs;
use crate::vfs::{ChangeView, Fs, LaneFsErrorView};

verus! {

/// Listed operations of an entry: the deletion of the file is told from the others by its name.
proof fn lemma_told_apart(
    state: Repo,
    path: Seq<char>,
    lane: Seq<char>,
    base: Option<Seq<u8>>,
    i: int,
)
    requires
        repo::repo_ok(state),
        upkeep::repo_tidy(state),
        base is Some,
        repo::repo_change_ops(state, path, lane, base) is Ok,
        0 <= i < conflict_laws::listed_ops(state, path, lane, base).len(),
    ensures
        ({
            let op = conflict_laws::listed_ops(state, path, lane, base)[i];
            &&& op.path == path
            &&& op.lane == lane
            &&& !(op.kind is Create)
            &&& groups::deletes_file(op) == conflict_laws::deletes(state, path, lane, base)
        }),
{
    repo::lemma_base_is_no_lane(state, lane);
    let file = state.files[path];
    let op = conflict_laws::listed_ops(state, path, lane, base)[i];
    match file.lanes[lane] {
        Entry::Present(list) => {
            assert(upkeep::file_tidy(file));
            assert(lane_file::entry_tidy(file.lanes[lane]));
            op_id::law_op_name_is_read_back(lane, list[i].id);
        },
        Entry::Deleted => {
            op_id::law_delete_name_is_read_back(lane);
        },
    }
}

/// Two listed operations of different lanes over a base that is there clash exactly where they take
/// some of the same ground, or where one of the lanes has deleted the file and the other has not.
/// So an operation lists another lane as a conflict exactly where it clashes with one of its
/// operations.
pub proof fn law_clashing_operations_conflict(
    state: Repo,
    path: Seq<char>,
    a: Seq<char>,
    k: Seq<char>,
    base: Option<Seq<u8>>,
    i: int,
    j: int,
)
    requires
        repo::repo_ok(state),
        repo::repo_finite(state),
        upkeep::repo_tidy(state),
        a != k,
        base is Some,
        repo::repo_change_ops(state, path, a, base) is Ok,
        repo::repo_change_ops(state, path, k, base) is Ok,
        0 <= i < conflict_laws::listed_ops(state, path, a, base).len(),
        0 <= j < conflict_laws::listed_ops(state, path, k, base).len(),
    ensures
        ({
            let mine = conflict_laws::listed_ops(state, path, a, base)[i];
            let theirs = conflict_laws::listed_ops(state, path, k, base)[j];
            let gone = conflict_laws::deletes(state, path, a, base);
            let other_gone = conflict_laws::deletes(state, path, k, base);
            &&& groups::clashing(mine, theirs) == if gone || other_gone {
                !(gone && other_gone)
            } else {
                mine.base_start < theirs.base_end && theirs.base_start < mine.base_end
            }
            &&& groups::clashing(mine, theirs) ==> mine.conflicts_with.contains(k)
                && theirs.conflicts_with.contains(a)
        }),
{
    lemma_told_apart(state, path, a, base, i);
    lemma_told_apart(state, path, k, base, j);
    let mine = conflict_laws::listed_ops(state, path, a, base)[i];
    let theirs = conflict_laws::listed_ops(state, path, k, base)[j];
    if conflict_laws::deletes(state, path, a, base) {
        conflict_laws::law_deletion_conflicts_with_every_operation(state, path, a, k, base);
    }
    if conflict_laws::deletes(state, path, k, base) {
        conflict_laws::law_deletion_conflicts_with_every_operation(state, path, k, a, base);
    }
    if !conflict_laws::deletes(state, path, a, base) && !conflict_laws::deletes(
        state,
        path,
        k,
        base,
    ) {
        conflict_laws::law_edits_conflict_where_they_meet(state, path, a, k, base, i);
        conflict_laws::law_edits_conflict_where_they_meet(state, path, k, a, base, j);
        assert(groups::clashing(mine, theirs) ==> (mine.base_start < theirs.base_end
            && theirs.base_start < mine.base_end));
    }
}

/// Where there is no base file, any two operations of different lanes that show a file of their own
/// clash, and each lists the other lane as a conflict.
pub proof fn law_creations_clash(
    state: Repo,
    path: Seq<char>,
    a: Seq<char>,
    k: Seq<char>,
    seen: Seq<u8>,
    other: Seq<u8>,
    i: int,
    j: int,
)
    requires
        repo::repo_ok(state),
        repo::repo_finite(state),
        a != k,
        a != "base"@,
        k != "base"@,
        repo::repo_read(state, path, a, None) == Ok::<Option<Seq<u8>>, LaneErrorView>(Some(seen)),
        repo::repo_read(state, path, k, None) == Ok::<Option<Seq<u8>>, LaneErrorView>(Some(other)),
        0 <= i < conflict_laws::listed_ops(state, path, a, None).len(),
        0 <= j < conflict_laws::listed_ops(state, path, k, None).len(),
    ensures
        ({
            let mine = conflict_laws::listed_ops(state, path, a, None)[i];
            let theirs = conflict_laws::listed_ops(state, path, k, None)[j];
            &&& groups::clashing(mine, theirs)
            &&& mine.conflicts_with.contains(k)
            &&& theirs.conflicts_with.contains(a)
        }),
{
    conflict_laws::law_creations_conflict(state, path, a, k, seen, other, i);
    conflict_laws::law_creations_conflict(state, path, k, a, other, seen, j);
}

/// The range that is listed for a group is the tight one around its operations, and the lanes that
/// are listed are exactly theirs, each once and in order.
pub proof fn law_group_range_is_tight(ops: Seq<ReviewOpView>)
    requires
        ops.len() > 0,
    ensures
        ({
            let group = groups::conflict_of(ops);
            &&& group.ops == ops
            &&& forall|i: int|
                0 <= i < ops.len() ==> group.range_start <= (#[trigger] ops[i]).op.base_start
                    && ops[i].op.base_end <= group.range_end
            &&& exists|i: int|
                0 <= i < ops.len() && (#[trigger] ops[i]).op.base_start == group.range_start
            &&& exists|i: int|
                0 <= i < ops.len() && (#[trigger] ops[i]).op.base_end == group.range_end
            &&& text_map::sorted_texts(group.lanes)
            &&& forall|lane: Seq<char>| #[trigger]
                group.lanes.contains(lane) <==> exists|i: int|
                    0 <= i < ops.len() && (#[trigger] ops[i]).op.lane == lane
        }),
{
    lemma_range(ops);
    let names = ops.map_values(|op: ReviewOpView| op.op.lane);
    vstd::seq_lib::seq_to_set_is_finite(names);
    assert(names.to_set() =~= groups::lanes_of(ops)) by {
        assert forall|lane: Seq<char>|
            names.to_set().contains(lane) <==> groups::lanes_of(ops).contains(lane) by {
            if names.contains(lane) {
                let i = choose|i: int| 0 <= i < names.len() && names[i] == lane;
                assert(ops[i].op.lane == lane);
            }
            if groups::lanes_of(ops).contains(lane) {
                let i = choose|i: int| 0 <= i < ops.len() && (#[trigger] ops[i]).op.lane == lane;
                assert(names[i] == lane);
            }
        }
    }
    text_map::lemma_listing_exists(groups::lanes_of(ops));
}

proof fn lemma_range(ops: Seq<ReviewOpView>)
    requires
        ops.len() > 0,
    ensures
        forall|i: int|
            0 <= i < ops.len() ==> groups::least_start(ops) <= (#[trigger] ops[i]).op.base_start
                && ops[i].op.base_end <= groups::greatest_end(ops),
        exists|i: int|
            0 <= i < ops.len() && (#[trigger] ops[i]).op.base_start == groups::least_start(ops),
        exists|i: int|
            0 <= i < ops.len() && (#[trigger] ops[i]).op.base_end == groups::greatest_end(ops),
    decreases ops.len(),
{
    let last = ops.len() - 1;
    if ops.len() == 1 {
        assert(ops[0].op.base_start == groups::least_start(ops));
        assert(ops[0].op.base_end == groups::greatest_end(ops));
    } else {
        let rest = ops.drop_last();
        lemma_range(rest);
        assert forall|i: int| 0 <= i < ops.len() implies groups::least_start(ops) <= (
        #[trigger] ops[i]).op.base_start && ops[i].op.base_end <= groups::greatest_end(ops) by {
            if i < last {
                assert(rest[i] == ops[i]);
            }
        }
        let first = choose|i: int|
            0 <= i < rest.len() && (#[trigger] rest[i]).op.base_start == groups::least_start(rest);
        let end = choose|i: int|
            0 <= i < rest.len() && (#[trigger] rest[i]).op.base_end == groups::greatest_end(rest);
        assert(ops[first] == rest[first]);
        assert(ops[end] == rest[end]);
        assert(ops[last].op.base_start == groups::least_start(ops) || ops[first].op.base_start
            == groups::least_start(ops));
        assert(ops[last].op.base_end == groups::greatest_end(ops) || ops[end].op.base_end
            == groups::greatest_end(ops));
    }
}

/// Whether an operation is wanted: one that conflicts with no lane, one that conflicts with some,
/// or one that is named.
pub open spec fn is_wanted(keep: KeepView, op: OpSummaryView) -> bool {
    match keep {
        KeepView::Clean => forall|lane: Seq<char>| !#[trigger] op.conflicts_with.contains(lane),
        KeepView::Conflicted => exists|lane: Seq<char>| #[trigger] op.conflicts_with.contains(lane),
        KeepView::Named(names) => names.contains(op.op_id),
    }
}

proof fn lemma_wanted(keep: KeepView, op: OpSummaryView)
    ensures
        accept::keeps(keep, op) == is_wanted(keep, op),
{
    if op.conflicts_with.len() > 0 {
        assert(op.conflicts_with.contains(op.conflicts_with[0]));
    }
}

/// What is kept of changes is exactly their wanted operations: every operation that is kept is a
/// wanted one of a change at the same path, every wanted operation is kept, and no change is kept
/// without any.
pub proof fn law_wanted_operations_are_kept(keep: KeepView, changes: Seq<ChangeView>)
    ensures
        ({
            let kept = accept::kept_changes(keep, changes);
            &&& forall|i: int| 0 <= i < kept.len() ==> (#[trigger] kept[i]).ops.len() > 0
            &&& forall|i: int, op: OpSummaryView|
                0 <= i < kept.len() && #[trigger] kept[i].ops.contains(op) ==> is_wanted(keep, op)
                    && exists|m: int|
                    0 <= m < changes.len() && (#[trigger] changes[m]).path == kept[i].path
                        && changes[m].ops.contains(op)
            &&& forall|m: int, op: OpSummaryView|
                0 <= m < changes.len() && #[trigger] changes[m].ops.contains(op) && is_wanted(
                    keep,
                    op,
                ) ==> exists|i: int|
                    0 <= i < kept.len() && (#[trigger] kept[i]).path == changes[m].path
                        && kept[i].ops.contains(op)
        }),
    decreases changes.len(),
{
    if changes.len() > 0 {
        let rest = changes.drop_last();
        let last = changes.last();
        law_wanted_operations_are_kept(keep, rest);
        let before = accept::kept_changes(keep, rest);
        let kept = accept::kept_changes(keep, changes);
        let wanted = |op: OpSummaryView| accept::keeps(keep, op);
        let ops = accept::kept_ops(keep, last.ops);
        assert(ops == last.ops.filter(wanted));
        assert forall|op: OpSummaryView| #[trigger] ops.contains(op) <==> last.ops.contains(op)
            && is_wanted(keep, op) by {
            lemma_wanted(keep, op);
            if ops.contains(op) {
                let n = choose|n: int| 0 <= n < ops.len() && ops[n] == op;
                last.ops.lemma_filter_pred(wanted, n);
                last.ops.lemma_filter_contains_rev(wanted, op);
            }
            if last.ops.contains(op) && is_wanted(keep, op) {
                let n = choose|n: int| 0 <= n < last.ops.len() && last.ops[n] == op;
                last.ops.lemma_filter_contains(wanted, n);
            }
        }
        assert forall|i: int, op: OpSummaryView|
            0 <= i < kept.len() && #[trigger] kept[i].ops.contains(op) implies is_wanted(keep, op)
            && exists|m: int|
            0 <= m < changes.len() && (#[trigger] changes[m]).path == kept[i].path
                && changes[m].ops.contains(op) by {
            if i < before.len() {
                assert(kept[i] == before[i]);
                assert(before[i].ops.contains(op));
                let m = choose|m: int|
                    0 <= m < rest.len() && (#[trigger] rest[m]).path == before[i].path
                        && rest[m].ops.contains(op);
                assert(changes[m] == rest[m]);
            } else {
                assert(ops.contains(op));
                assert(changes[changes.len() - 1] == last);
            }
        }
        assert forall|m: int, op: OpSummaryView|
            0 <= m < changes.len() && #[trigger] changes[m].ops.contains(op) && is_wanted(
                keep,
                op,
            ) implies exists|i: int|
            0 <= i < kept.len() && (#[trigger] kept[i]).path == changes[m].path
                && kept[i].ops.contains(op) by {
            if m < rest.len() {
                assert(rest[m] == changes[m]);
                assert(rest[m].ops.contains(op));
                let i = choose|i: int|
                    0 <= i < before.len() && (#[trigger] before[i]).path == rest[m].path
                        && before[i].ops.contains(op);
                assert(kept[i] == before[i]);
            } else {
                assert(ops.contains(op));
                assert(kept[kept.len() - 1].ops.contains(op));
            }
        }
    }
}

/// Whether a change is that of a lane at one of some paths.
pub open spec fn comes_from(
    fs: Fs,
    lane: Seq<char>,
    paths: Seq<Seq<char>>,
    change: ChangeView,
) -> bool {
    exists|m: int|
        0 <= m < paths.len() && vfs::fs_change(fs, lane, #[trigger] paths[m]) == Ok::<
            Option<ChangeView>,
            LaneFsErrorView,
        >(Some(change))
}

/// Whether the change of a lane at a path is listed.
pub open spec fn is_listed(
    fs: Fs,
    lane: Seq<char>,
    changes: Seq<ChangeView>,
    path: Seq<char>,
) -> bool {
    match vfs::fs_change(fs, lane, path) {
        Ok(Some(change)) => changes.contains(change),
        _ => false,
    }
}

/// The changes of a lane are those at the paths at which it reads something else than the base: each
/// is that of one of the paths, and none is left out.
pub proof fn law_changes_are_listed(fs: Fs, lane: Seq<char>, paths: Seq<Seq<char>>)
    requires
        review::changes_at(fs, lane, paths) is Ok,
    ensures
        ({
            let changes = review::changes_at(fs, lane, paths)->Ok_0;
            &&& forall|i: int|
                0 <= i < changes.len() ==> comes_from(fs, lane, paths, #[trigger] changes[i])
            &&& forall|m: int|
                0 <= m < paths.len() && vfs::fs_read(fs, lane, #[trigger] paths[m])
                    != vfs::fs_read(fs, "base"@, paths[m]) ==> is_listed(
                    fs,
                    lane,
                    changes,
                    paths[m],
                )
        }),
    decreases paths.len(),
{
    let changes = review::changes_at(fs, lane, paths)->Ok_0;
    if paths.len() > 0 {
        let rest = paths.drop_last();
        let last = paths.last();
        law_changes_are_listed(fs, lane, rest);
        let before = review::changes_at(fs, lane, rest)->Ok_0;
        assert(paths[paths.len() - 1] == last);
        assert forall|i: int| 0 <= i < changes.len() implies comes_from(
            fs,
            lane,
            paths,
            #[trigger] changes[i],
        ) by {
            if i < before.len() {
                assert(changes[i] == before[i]);
                assert(comes_from(fs, lane, rest, before[i]));
                let m = choose|m: int|
                    0 <= m < rest.len() && vfs::fs_change(fs, lane, #[trigger] rest[m]) == Ok::<
                        Option<ChangeView>,
                        LaneFsErrorView,
                    >(Some(before[i]));
                assert(paths[m] == rest[m]);
            }
        }
        assert forall|m: int|
            0 <= m < paths.len() && vfs::fs_read(fs, lane, #[trigger] paths[m]) != vfs::fs_read(
                fs,
                "base"@,
                paths[m],
            ) implies is_listed(fs, lane, changes, paths[m]) by {
            if m < rest.len() {
                assert(rest[m] == paths[m]);
                assert(is_listed(fs, lane, before, rest[m]));
                let change = vfs::fs_change(fs, lane, paths[m])->Ok_0->0;
                let i = choose|i: int| 0 <= i < before.len() && before[i] == change;
                assert(changes[i] == change);
            } else {
                assert(changes[changes.len() - 1] == vfs::fs_change(fs, lane, last)->Ok_0->0);
            }
        }
    }
}

/// The longest beginning of a text that fits: it is a beginning, it fits, and one character more
/// would not.
proof fn lemma_prefix_fits(s: Seq<char>, limit: nat)
    ensures
        ({
            let p = types::utf8_prefix(s, limit);
            &&& p.len() <= s.len() && p == s.subrange(0, p.len() as int)
            &&& types::utf8_len(p) <= limit
            &&& p.len() < s.len() ==> types::utf8_len(s.subrange(0, p.len() as int + 1)) > limit
        }),
    decreases s.len(),
{
    let p = types::utf8_prefix(s, limit);
    if types::utf8_len(s) <= limit {
        assert(s.subrange(0, s.len() as int) =~= s);
    } else {
        let front = s.drop_last();
        lemma_prefix_fits(front, limit);
        assert(s.subrange(0, p.len() as int) =~= front.subrange(0, p.len() as int));
        if p.len() < front.len() {
            assert(s.subrange(0, p.len() as int + 1) =~= front.subrange(0, p.len() as int + 1));
        } else {
            assert(s.subrange(0, p.len() as int + 1) =~= s);
        }
    }
}

/// A preview tells the length of the bytes, shows text exactly where they are UTF-8, all of it
/// where it is not marked as cut off, and otherwise as much of its beginning as fits.
pub proof fn law_preview_shows_the_beginning(bytes: Seq<u8>)
    ensures
        ({
            let shown = preview::previewed(bytes);
            &&& shown.len == bytes.len()
            &&& shown.truncated <==> bytes.len() > 4096
            &&& shown.utf8 is Some <==> vstd::utf8::valid_utf8(bytes)
            &&& shown.utf8 is Some && !shown.truncated ==> shown.utf8 == Some(
                vstd::utf8::decode_utf8(bytes),
            )
            &&& shown.utf8 is Some && shown.truncated ==> {
                let part = shown.utf8->0;
                let whole = vstd::utf8::decode_utf8(bytes);
                &&& part.len() <= whole.len() && part == whole.subrange(0, part.len() as int)
                &&& types::utf8_len(part) <= 4096
                &&& part.len() < whole.len() ==> types::utf8_len(
                    whole.subrange(0, part.len() as int + 1),
                ) > 4096
            }
        }),
{
    if vstd::utf8::valid_utf8(bytes) {
        lemma_prefix_fits(vstd::utf8::decode_utf8(bytes), preview::BYTE_PREVIEW_LIMIT as nat);
    }
}

/// An attempt went well: it was carried out, and its command ended with code zero.
pub open spec fn went_well(attempt: AttemptRecordView) -> bool {
    &&& attempt.orchestration_error is None
    &&& attempt.recorded is Some
    &&& attempt.recorded->0.worker_error is None
    &&& attempt.recorded->0.exit_code == Some(0i32)
}

/// The numbers of checks that succeeded.
proof fn lemma_passed_checks(checks: Seq<CompareCheckView>)
    ensures
        orchestrate::passed(checks) <= checks.len(),
        orchestrate::passed(checks) == checks.len() <==> forall|i: int|
            0 <= i < checks.len() ==> (#[trigger] checks[i]).ok,
        orchestrate::passed(checks) == 0 <==> forall|i: int|
            0 <= i < checks.len() ==> !(#[trigger] checks[i]).ok,
    decreases checks.len(),
{
    if checks.len() > 0 {
        let rest = checks.drop_last();
        lemma_passed_checks(rest);
        assert(checks[checks.len() - 1] == checks.last());
        assert(forall|i: int| 0 <= i < rest.len() ==> rest[i] == checks[i]);
        if forall|i: int| 0 <= i < checks.len() ==> (#[trigger] checks[i]).ok {
            assert(checks[checks.len() - 1].ok);
            assert forall|i: int| 0 <= i < rest.len() implies (#[trigger] rest[i]).ok by {
                assert(checks[i].ok);
            }
        }
        if forall|i: int| 0 <= i < checks.len() ==> !(#[trigger] checks[i]).ok {
            assert(!checks[checks.len() - 1].ok);
            assert forall|i: int| 0 <= i < rest.len() implies !(#[trigger] rest[i]).ok by {
                assert(!checks[i].ok);
            }
        }
        if orchestrate::passed(checks) == checks.len() {
            assert forall|i: int| 0 <= i < checks.len() implies (#[trigger] checks[i]).ok by {
                if i < rest.len() {
                    assert(rest[i].ok);
                }
            }
        }
        if orchestrate::passed(checks) == 0 {
            assert forall|i: int| 0 <= i < checks.len() implies !(#[trigger] checks[i]).ok by {
                if i < rest.len() {
                    assert(!rest[i].ok);
                }
            }
        }
    }
}

/// The attempt of a lane among some is one of them.
proof fn lemma_attempt_for(attempts: Seq<AttemptRecordView>, lane: Seq<char>)
    ensures
        match orchestrate::attempt_for(attempts, lane) {
            Some(found) => attempts.contains(found) && found.lane == lane,
            None => forall|i: int| 0 <= i < attempts.len() ==> (#[trigger] attempts[i]).lane != lane,
        },
    decreases attempts.len(),
{
    if attempts.len() > 0 {
        let rest = attempts.drop_first();
        lemma_attempt_for(rest, lane);
        if attempts[0].lane == lane {
            assert(attempts.contains(attempts[0]));
        } else {
            match orchestrate::attempt_for(rest, lane) {
                Some(found) => {
                    let i = choose|i: int| 0 <= i < rest.len() && rest[i] == found;
                    assert(attempts[i + 1] == found);
                },
                None => {
                    assert forall|i: int| 0 <= i < attempts.len() implies (
                    #[trigger] attempts[i]).lane != lane by {
                        if i > 0 {
                            assert(rest[i - 1] == attempts[i]);
                        }
                    }
                },
            }
        }
    }
}

/// How a check ended for a lane is listed where the check was made for it.
pub open spec fn is_check_of(checks: Seq<CheckRecordView>, lane: Seq<char>, listed: CompareCheckView) -> bool {
    exists|n: int, attempt: AttemptRecordView|
        0 <= n < checks.len() && #[trigger] checks[n].attempts.contains(attempt) && attempt.lane
            == lane && listed.name == checks[n].name && listed.ok == went_well(attempt)
}

/// Whether a check was made for a lane.
pub open spec fn made_for(check: CheckRecordView, lane: Seq<char>) -> bool {
    exists|i: int| 0 <= i < check.attempts.len() && (#[trigger] check.attempts[i]).lane == lane
}

proof fn lemma_compared_checks(checks: Seq<CheckRecordView>, lane: Seq<char>)
    ensures
        forall|m: int|
            0 <= m < orchestrate::compared_checks(checks, lane).len() ==> is_check_of(
                checks,
                lane,
                #[trigger] orchestrate::compared_checks(checks, lane)[m],
            ),
        orchestrate::compared_checks(checks, lane).len() <= checks.len(),
        (forall|n: int| 0 <= n < checks.len() ==> made_for(#[trigger] checks[n], lane))
            ==> orchestrate::compared_checks(checks, lane).len() == checks.len(),
    decreases checks.len(),
{
    if checks.len() > 0 {
        let rest = checks.drop_last();
        let last = checks.last();
        lemma_compared_checks(rest, lane);
        lemma_attempt_for(last.attempts, lane);
        let before = orchestrate::compared_checks(rest, lane);
        let all = orchestrate::compared_checks(checks, lane);
        assert(checks[checks.len() - 1] == last);
        assert(forall|n: int| 0 <= n < rest.len() ==> rest[n] == checks[n]);
        assert forall|m: int| 0 <= m < all.len() implies is_check_of(
            checks,
            lane,
            #[trigger] all[m],
        ) by {
            if m < before.len() {
                assert(all[m] == before[m]);
                assert(is_check_of(rest, lane, before[m]));
                let (n, attempt) = choose|n: int, attempt: AttemptRecordView|
                    0 <= n < rest.len() && #[trigger] rest[n].attempts.contains(attempt)
                        && attempt.lane == lane && before[m].name == rest[n].name && before[m].ok
                        == went_well(attempt);
                assert(checks[n].attempts.contains(attempt));
            } else {
                let attempt = orchestrate::attempt_for(last.attempts, lane)->0;
                assert(checks[checks.len() - 1].attempts.contains(attempt));
            }
        }
        if forall|n: int| 0 <= n < checks.len() ==> made_for(#[trigger] checks[n], lane) {
            assert forall|n: int| 0 <= n < rest.len() implies made_for(#[trigger] rest[n], lane) by {
                assert(made_for(checks[n], lane));
            }
            assert(made_for(checks[checks.len() - 1], lane));
        }
    }
}

/// Putting an attempt next to the others tells how it ended and how each check ended for it. The
/// checks that succeeded and those that failed add up, none failed exactly where each went well,
/// and clean operations can be accepted exactly where there are some.
pub proof fn law_comparison_tells_how_attempts_ended(
    attempt: AttemptRecordView,
    checks: Seq<CheckRecordView>,
    lanes: Seq<ReviewLaneSummaryView>,
)
    ensures
        ({
            let told = orchestrate::compared_attempt(attempt, checks, lanes);
            &&& told.index == attempt.index
            &&& told.lane == attempt.lane
            &&& told.attempt_ok == went_well(attempt)
            &&& told.checks_passed + told.checks_failed == told.checks.len()
            &&& told.checks_failed == 0 <==> forall|m: int|
                0 <= m < told.checks.len() ==> (#[trigger] told.checks[m]).ok
            &&& told.checks_passed == 0 <==> forall|m: int|
                0 <= m < told.checks.len() ==> !(#[trigger] told.checks[m]).ok
            &&& forall|m: int|
                0 <= m < told.checks.len() ==> is_check_of(
                    checks,
                    attempt.lane,
                    #[trigger] told.checks[m],
                )
            &&& (forall|n: int|
                0 <= n < checks.len() ==> made_for(#[trigger] checks[n], attempt.lane))
                ==> told.checks.len() == checks.len()
            &&& (exists|a: int| 0 <= a < told.actions.len() && (#[trigger] told.actions[a]).command
                == seq!["accept"@, attempt.lane]) <== told.clean_ops > 0
        }),
{
    let told = orchestrate::compared_attempt(attempt, checks, lanes);
    lemma_passed_checks(told.checks);
    lemma_compared_checks(checks, attempt.lane);
    if told.clean_ops > 0 {
        assert(told.actions[2].command == seq!["accept"@, attempt.lane]);
    }
}

} // verus!
