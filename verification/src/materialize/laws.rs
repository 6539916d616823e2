//! What holds of commands that run in the worktree.
use vstd::prelude::*;

use crate::commit;
use crate::materialize::run;
use crate::materialize::run::RawChangeView;
use crate::materialize::snapshot;
use crate::materialize::snapshot::{PathLookView, Snapshot};
use crate::materialize::watch;
use crate::materialize::watch::WatchReportView;
use crate::text_map;
use crate::vfs;
use crate::vfs::{Fs, LaneFsErrorView};
use crate::virtual_exec::capture;
use crate::write_laws;

verus! {

/// A lane reads what changed: at a path with content that content, and at a path without content
/// nothing, if there was a file. At every path that did not change it reads what it read, and so
/// does every other lane at every path. Where changes share a path the last of them counts.
pub open spec fn reads_what_changed(
    before: Fs,
    after: Fs,
    lane: Seq<char>,
    files: Set<Seq<char>>,
    changes: Seq<RawChangeView>,
) -> bool {
    &&& forall|j: int|
        0 <= j < changes.len() && is_last_change(changes, j) && (changes[j].content is Some
            || files.contains(changes[j].path)) ==> vfs::fs_read(
            after,
            lane,
            (#[trigger] changes[j]).path,
        ) == Ok::<Option<Seq<u8>>, LaneFsErrorView>(changes[j].content)
    &&& forall|path: Seq<char>|
        (forall|j: int|
            0 <= j < changes.len() ==> vfs::repo_path((#[trigger] changes[j]).path)
                != vfs::repo_path(path)) ==> #[trigger] vfs::fs_read(after, lane, path)
            == vfs::fs_read(before, lane, path)
    &&& forall|k: Seq<char>, path: Seq<char>|
        k != lane ==> #[trigger] vfs::fs_read(after, k, path) == vfs::fs_read(before, k, path)
    &&& after.files == before.files
}

/// Whether no later change has the path of one.
pub open spec fn is_last_change(changes: Seq<RawChangeView>, j: int) -> bool {
    forall|m: int|
        j < m < changes.len() ==> vfs::repo_path((#[trigger] changes[m]).path) != vfs::repo_path(
            changes[j].path,
        )
}

/// One more change is read at its path.
pub proof fn lemma_one_more_change(
    before: Fs,
    now: Fs,
    after: Fs,
    lane: Seq<char>,
    files: Set<Seq<char>>,
    changes: Seq<RawChangeView>,
    change: RawChangeView,
)
    requires
        reads_what_changed(before, now, lane, files, changes),
        if change.content is None && !files.contains(change.path) {
            after == now
        } else {
            &&& vfs::fs_replace(now, lane, change.path, change.content) == Ok::<
                Fs,
                LaneFsErrorView,
            >(after)
            &&& vfs::fs_read(after, lane, change.path) == Ok::<Option<Seq<u8>>, LaneFsErrorView>(
                change.content,
            )
        },
    ensures
        reads_what_changed(before, after, lane, files, changes.push(change)),
{
    let longer = changes.push(change);
    assert forall|k: Seq<char>, path: Seq<char>|
        k != lane || vfs::repo_path(path) != vfs::repo_path(change.path) implies #[trigger] vfs::fs_read(
        after,
        k,
        path,
    ) == vfs::fs_read(now, k, path) by {
        if after != now {
            capture::lemma_replacing_is_local(now, lane, change.path, change.content, k, path);
        }
    }
    assert forall|j: int|
        0 <= j < longer.len() && is_last_change(longer, j) && (longer[j].content is Some
            || files.contains(longer[j].path)) implies vfs::fs_read(
        after,
        lane,
        (#[trigger] longer[j]).path,
    ) == Ok::<Option<Seq<u8>>, LaneFsErrorView>(longer[j].content) by {
        if j < changes.len() {
            assert(longer[changes.len() as int] == change);
            assert(vfs::repo_path(longer[changes.len() as int].path) != vfs::repo_path(
                longer[j].path,
            ));
            assert(longer[j] == changes[j]);
            assert(is_last_change(changes, j)) by {
                assert forall|m: int| j < m < changes.len() implies vfs::repo_path((
                #[trigger] changes[m]).path) != vfs::repo_path(changes[j].path) by {
                    assert(longer[m] == changes[m]);
                }
            }
        }
    }
    assert forall|path: Seq<char>|
        (forall|j: int|
            0 <= j < longer.len() ==> vfs::repo_path((#[trigger] longer[j]).path)
                != vfs::repo_path(path)) implies #[trigger] vfs::fs_read(after, lane, path)
        == vfs::fs_read(before, lane, path) by {
        assert(longer[changes.len() as int] == change);
        assert(vfs::repo_path(longer[changes.len() as int].path) != vfs::repo_path(path));
        assert forall|j: int| 0 <= j < changes.len() implies vfs::repo_path((
        #[trigger] changes[j]).path) != vfs::repo_path(path) by {
            assert(longer[j] == changes[j]);
        }
        assert(vfs::fs_read(after, lane, path) == vfs::fs_read(now, lane, path));
    }
}

/// What a command changed in the worktree is what the lane reads once it was taken: the bytes that
/// are in the worktree now, or nothing where a file is gone. All else is read as before.
pub proof fn law_changes_are_taken(
    fs: Fs,
    lane: Seq<char>,
    files: Set<Seq<char>>,
    changes: Seq<RawChangeView>,
)
    requires
        lane != "base"@,
        forall|j: int, path: Seq<char>|
            0 <= j < changes.len() ==> write_laws::can_be_told(
                #[trigger] vfs::base_at(fs.files, path),
                (#[trigger] changes[j]).content,
            ),
        run::take_changes(fs, lane, files, changes).1 is None,
    ensures
        reads_what_changed(
            fs,
            run::take_changes(fs, lane, files, changes).0,
            lane,
            files,
            changes,
        ),
    decreases changes.len(),
{
    if changes.len() > 0 {
        let rest = changes.drop_last();
        let change = changes.last();
        assert forall|j: int, path: Seq<char>|
            0 <= j < rest.len() implies write_laws::can_be_told(
            #[trigger] vfs::base_at(fs.files, path),
            (#[trigger] rest[j]).content,
        ) by {
            assert(rest[j] == changes[j]);
        }
        law_changes_are_taken(fs, lane, files, rest);
        let now = run::take_changes(fs, lane, files, rest).0;
        let after = run::take_changes(fs, lane, files, changes).0;
        assert(changes[changes.len() - 1] == change);
        if change.content is Some || files.contains(change.path) {
            let path = vfs::repo_path(change.path)->Ok_0;
            assert(write_laws::can_be_told(vfs::base_at(fs.files, path), change.content));
            write_laws::law_written_content_is_read_back(
                now.repo,
                path,
                lane,
                vfs::base_at(now.files, path),
                change.content,
            );
        }
        lemma_one_more_change(fs, now, after, lane, files, rest, change);
        assert(rest.push(change) =~= changes);
    }
}

/// Laying a lane over the worktree writes at each of its paths what the lane reads there.
pub proof fn law_projection_shows_the_lane(fs: Fs, lane: Seq<char>, paths: Seq<Seq<char>>)
    ensures
        ({
            let (shown, error) = run::shown_at(fs, lane, paths);
            &&& shown.len() <= paths.len()
            &&& error is None <==> shown.len() == paths.len()
            &&& forall|i: int|
                0 <= i < shown.len() ==> (#[trigger] shown[i]).path == paths[i] && vfs::fs_read(
                    fs,
                    lane,
                    paths[i],
                ) == Ok::<Option<Seq<u8>>, LaneFsErrorView>(shown[i].content)
            &&& error matches Some(error) ==> vfs::fs_read(
                fs,
                lane,
                paths[shown.len() as int],
            ) == Err::<Option<Seq<u8>>, LaneFsErrorView>(error)
        }),
    decreases paths.len(),
{
    if paths.len() > 0 {
        let rest = paths.drop_last();
        law_projection_shows_the_lane(fs, lane, rest);
        let before = run::shown_at(fs, lane, rest).0;
        let shown = run::shown_at(fs, lane, paths).0;
        assert forall|i: int| 0 <= i < shown.len() implies (#[trigger] shown[i]).path == paths[i]
            && vfs::fs_read(fs, lane, paths[i]) == Ok::<Option<Seq<u8>>, LaneFsErrorView>(
            shown[i].content,
        ) by {
            if i < before.len() {
                assert(shown[i] == before[i]);
                assert(rest[i] == paths[i]);
            }
        }
        if run::shown_at(fs, lane, rest).1 is Some {
            assert(rest[shown.len() as int] == paths[shown.len() as int]);
        }
    }
}

/// The files and directories of a snapshot are finitely many.
pub open spec fn finite_snapshot(snapshot: Snapshot) -> bool {
    snapshot.files.dom().finite() && snapshot.dirs.finite()
}

/// A path looks the same in two snapshots: a file with the same look in both or in neither, and a
/// directory in both or in neither.
pub open spec fn looks_same(before: Snapshot, after: Snapshot, path: Seq<char>) -> bool {
    &&& before.files.contains_key(path) == after.files.contains_key(path)
    &&& before.files.contains_key(path) ==> before.files[path] == after.files[path]
    &&& before.dirs.contains(path) == after.dirs.contains(path)
}

/// Paths that do not look the same are known to one of the snapshots, so they can be listed.
proof fn lemma_part_is_finite(before: Snapshot, after: Snapshot, part: Set<Seq<char>>)
    requires
        finite_snapshot(before),
        finite_snapshot(after),
        forall|path: Seq<char>| #[trigger] part.contains(path) ==> !looks_same(before, after, path),
    ensures
        part.finite(),
{
    let all = before.files.dom().union(after.files.dom()).union(before.dirs).union(after.dirs);
    assert(part.subset_of(all));
    vstd::set_lib::lemma_len_subset(part, all);
}

/// What a command changed is exactly what does not look the same afterwards. Where the paths that
/// were seen to change are relied on, it is what of them, of the directories above them, and of
/// what lies or lay below them does not look the same.
pub proof fn law_changes_are_what_looks_different(
    before: Snapshot,
    after: Snapshot,
    candidates: Set<Seq<char>>,
    below: Set<Seq<char>>,
    path: Seq<char>,
)
    requires
        finite_snapshot(before),
        finite_snapshot(after),
    ensures
        run::changed_after(before, after, true, candidates, below).contains(path) <==> !looks_same(
            before,
            after,
            path,
        ),
        run::changed_after(before, after, false, candidates, below).contains(path)
            ==> !looks_same(before, after, path),
        !looks_same(before, after, path) && below.contains(path) ==> run::changed_after(
            before,
            after,
            false,
            candidates,
            below,
        ).contains(path),
        forall|candidate: Seq<char>|
            !looks_same(before, after, path) && #[trigger] candidates.contains(candidate) && (
            snapshot::leads_to(path, candidate) || (before.files.contains_key(path)
                || before.dirs.contains(path)) && commit::lies_below(path, candidate))
                ==> run::changed_after(before, after, false, candidates, below).contains(path),
{
    let all = snapshot::differing(before, after);
    assert forall|p: Seq<char>| snapshot::differs(before, after, p) <==> !looks_same(
        before,
        after,
        p,
    ) by {}
    lemma_part_is_finite(before, after, all);
    text_map::lemma_listing_exists(all);
    let wanted = |p: Seq<char>| snapshot::differs(before, after, p);
    let part = snapshot::may_have_changed(before, candidates, below).filter(wanted);
    lemma_part_is_finite(before, after, part);
    text_map::lemma_listing_exists(part);
    assert(run::changed_after(before, after, false, candidates, below) == text_map::listing(part));
    assert(run::changed_after(before, after, false, candidates, below).contains(path)
        <==> part.contains(path));
}

/// A new look at a path replaces what was known of it and of what lay below it by what was seen,
/// and nothing else.
pub proof fn law_looking_again_replaces_what_was_known(
    before: Snapshot,
    root: Seq<char>,
    look: PathLookView,
    path: Seq<char>,
)
    requires
        look matches PathLookView::Directory(below) ==> forall|p: Seq<char>|
            #![trigger below.files.contains_key(p)]
            #![trigger below.dirs.contains(p)]
            below.files.contains_key(p) || below.dirs.contains(p) ==> commit::lies_below(p, root),
    ensures
        ({
            let after = snapshot::refreshed(before, root, look);
            if path != root && !commit::lies_below(path, root) {
                looks_same(before, after, path)
            } else {
                match look {
                    PathLookView::Nothing => !after.files.contains_key(path)
                        && !after.dirs.contains(path),
                    PathLookView::File(file) => {
                        &&& after.files.contains_key(path) <==> path == root
                        &&& path == root ==> after.files[path] == file
                        &&& !after.dirs.contains(path)
                    },
                    PathLookView::Directory(below) => {
                        &&& after.files.contains_key(path) <==> below.files.contains_key(path)
                        &&& below.files.contains_key(path) ==> after.files[path]
                            == below.files[path]
                        &&& after.dirs.contains(path) <==> path == root || below.dirs.contains(path)
                    },
                }
            }
        }),
{
}

/// What watched paths there are among the labels.
proof fn lemma_watched(paths: Seq<Seq<char>>, i: int)
    requires
        0 <= i < paths.len(),
        snapshot::watched_label(paths[i]) is Some,
    ensures
        watch::watched_labels(paths).contains(snapshot::watched_label(paths[i])->0),
    decreases paths.len(),
{
    let rest = paths.drop_last();
    if i < rest.len() {
        assert(rest[i] == paths[i]);
        lemma_watched(rest, i);
    }
}

/// What the reports of a watcher amount to holds each of them.
proof fn lemma_reported(reports: Seq<WatchReportView>, i: int)
    requires
        0 <= i < reports.len(),
    ensures
        reports[i] is Failure ==> watch::reported(reports).fallback,
        reports[i] matches WatchReportView::Paths(paths) ==> watch::watched_labels(paths).subset_of(
            watch::reported(reports).paths,
        ),
    decreases reports.len(),
{
    let rest = reports.drop_last();
    if i < rest.len() {
        assert(rest[i] == reports[i]);
        lemma_reported(rest, i);
    }
}

/// The paths that were seen to change are relied on only where a watcher told of some, never failed
/// and ended in time. Every watched path that it told of is among them.
pub proof fn law_watcher_is_relied_on_with_reason(
    watched: bool,
    reports: Seq<WatchReportView>,
    overdue: bool,
    i: int,
    j: int,
)
    requires
        0 <= i < reports.len(),
        !watch::dirty_paths(watched, reports, overdue).fallback,
    ensures
        watched,
        !overdue,
        !(reports[i] is Failure),
        watch::dirty_paths(watched, reports, overdue).paths != Set::<Seq<char>>::empty(),
        reports[i] matches WatchReportView::Paths(paths) ==> (0 <= j < paths.len()
            && snapshot::watched_label(paths[j]) is Some ==> watch::dirty_paths(
            watched,
            reports,
            overdue,
        ).paths.contains(snapshot::watched_label(paths[j])->0)),
{
    lemma_reported(reports, i);
    if let WatchReportView::Paths(paths) = reports[i] {
        if 0 <= j < paths.len() && snapshot::watched_label(paths[j]) is Some {
            lemma_watched(paths, j);
        }
    }
}

} // verus!
