//! The course of a command that runs in the worktree.
use vstd::prelude::*;

use crate::materialize::laws;
use crate::materialize::restore;
use crate::materialize::snapshot;
use crate::materialize::snapshot::{BaseSnapshot, Snapshot};
use crate::materialize::watch;
use crate::materialize::watch::{restore_candidates, DirtyPathSet};
use crate::sorting;
use crate::text;
use crate::text_map;
use crate::text_map::TextMap;
use crate::vfs;
use crate::vfs::{Fs, LaneFs, LaneFsError, LaneFsErrorView};

verus! {

// Laying a lane over the worktree.

/// What a lane shows at a path.
#[derive(Debug, PartialEq, Eq)]
pub struct RawChange {
    pub path: String,
    pub content: Option<Vec<u8>>,
}

/// A [`RawChange`] as a mathematical value.
#[verifier::ext_equal]
pub struct RawChangeView {
    pub path: Seq<char>,
    pub content: Option<Seq<u8>>,
}

impl View for RawChange {
    type V = RawChangeView;

    open spec fn view(&self) -> RawChangeView {
        RawChangeView { path: self.path@, content: restore::opt_bytes(self.content) }
    }
}

/// What a lane shows at some paths, up to the first that cannot be read.
pub open spec fn shown_at(fs: Fs, lane: Seq<char>, paths: Seq<Seq<char>>) -> (
    Seq<RawChangeView>,
    Option<LaneFsErrorView>,
)
    decreases paths.len(),
{
    if paths.len() == 0 {
        (Seq::empty(), None)
    } else {
        let before = shown_at(fs, lane, paths.drop_last());
        if before.1 is Some {
            before
        } else {
            match vfs::fs_read(fs, lane, paths.last()) {
                Err(error) => (before.0, Some(error)),
                Ok(content) => (
                    before.0.push(RawChangeView { path: paths.last(), content }),
                    None,
                ),
            }
        }
    }
}

/// What to write into the worktree, or remove from it, to lay a lane over it.
#[derive(Debug, PartialEq, Eq)]
pub struct Projection {
    pub paths: Vec<String>,
    pub changes: Vec<RawChange>,
    pub error: Option<LaneFsError>,
}

/// An optional error as a mathematical value.
pub open spec fn opt_error(error: Option<LaneFsError>) -> Option<LaneFsErrorView> {
    match error {
        Some(error) => Some(error@),
        None => None,
    }
}

/// What to write into the worktree, or remove from it, to lay a lane over it: all that its
/// overlays show, up to the first that cannot be read.
pub fn project_lane(fs: &LaneFs, lane: &str) -> (r: Result<Projection, LaneFsError>)
    requires
        fs.wf(),
    ensures
        match r {
            Ok(projection) => {
                let paths = crate::repo::overlay_listing(fs@.repo, lane@);
                &&& fs@.repo.lanes.contains(lane@)
                &&& text::texts(projection.paths@) == paths
                &&& (sorting::views(projection.changes@), opt_error(projection.error)) == shown_at(
                    fs@,
                    lane@,
                    paths,
                )
            },
            Err(error) => !fs@.repo.lanes.contains(lane@) && error@ == LaneFsErrorView::Lane(
                crate::types::LaneErrorView::LaneMissing(lane@),
            ),
        },
{
    let paths = match fs.changed_paths(lane) {
        Err(error) => {
            return Err(error);
        },
        Ok(paths) => paths,
    };
    let ghost all = text::texts(paths@);
    let mut changes: Vec<RawChange> = Vec::new();
    let mut error: Option<LaneFsError> = None;
    let mut i: usize = 0;
    proof {
        assert(all.subrange(0, 0) =~= Seq::empty());
        assert(sorting::views(changes@) =~= Seq::empty());
    }
    while i < paths.len()
        invariant
            i <= paths@.len(),
            fs.wf(),
            all == text::texts(paths@),
            (sorting::views(changes@), opt_error(error)) == shown_at(
                fs@,
                lane@,
                all.subrange(0, i as int),
            ),
        decreases paths@.len() - i,
    {
        let ghost before = sorting::views(changes@);
        proof {
            assert(all.subrange(0, i + 1).drop_last() =~= all.subrange(0, i as int));
            assert(all.subrange(0, i + 1).last() == paths@[i as int]@);
        }
        if error.is_none() {
            match fs.read_file(lane, paths[i].as_str()) {
                Err(fault) => {
                    error = Some(fault);
                },
                Ok(content) => {
                    let change = RawChange { path: paths[i].clone(), content };
                    let ghost shown = change@;
                    changes.push(change);
                    assert(sorting::views(changes@) =~= before.push(shown));
                },
            }
        }
        i = i + 1;
    }
    assert(all.subrange(0, i as int) =~= all);
    Ok(Projection { paths, changes, error })
}

// After the command.

/// What the worktree looks like after the command: all of it, or what lies at and below the paths
/// to look at.
#[derive(Debug, PartialEq, Eq)]
pub struct Aftermath {
    pub snapshot: BaseSnapshot,
    pub below: TextMap<()>,
}

/// The paths that look different after the command: those that were seen to change are looked at,
/// or all where that cannot be relied on.
pub open spec fn changed_after(
    before: Snapshot,
    after: Snapshot,
    fallback: bool,
    candidates: Set<Seq<char>>,
    below: Set<Seq<char>>,
) -> Seq<Seq<char>> {
    if fallback {
        text_map::listing(snapshot::differing(before, after))
    } else {
        text_map::listing(
            snapshot::may_have_changed(before, candidates, below).filter(
                |path: Seq<char>| snapshot::differs(before, after, path),
            ),
        )
    }
}

/// The paths that look different after the command.
pub fn detect_changes(
    before: &BaseSnapshot,
    after: &Aftermath,
    fallback: bool,
    candidates: &TextMap<()>,
) -> (r: Vec<String>)
    requires
        before.wf(),
        after.snapshot.wf(),
        after.below.wf(),
        candidates.wf(),
    ensures
        text::texts(r@) == changed_after(
            before@,
            after.snapshot@,
            fallback,
            candidates@.dom(),
            after.below@.dom(),
        ),
{
    if fallback {
        before.changed_paths(&after.snapshot)
    } else {
        before.changed_paths_for_candidates(&after.snapshot, candidates, &after.below)
    }
}

/// What is left to do after the command: the paths that it changed, to be taken into the lane, and
/// those to be put back.
#[derive(Debug, PartialEq, Eq)]
pub struct AfterWorker {
    pub changed_paths: Vec<String>,
    pub restore_paths: Vec<String>,
}

/// What is left to do after the command. What it changed is seen against the worktree with the
/// lane laid over it; what is to be put back, against the worktree before that.
pub fn after_worker(
    before: &BaseSnapshot,
    projected: &BaseSnapshot,
    projected_paths: &Vec<String>,
    dirty: &DirtyPathSet,
    after: &Aftermath,
) -> (r: AfterWorker)
    requires
        before.wf(),
        projected.wf(),
        dirty.paths.wf(),
        after.snapshot.wf(),
        after.below.wf(),
    ensures
        ({
            let candidates = text::texts(projected_paths@).to_set().union(dirty@.paths);
            &&& text::texts(r.changed_paths@) == changed_after(
                projected@,
                after.snapshot@,
                dirty.fallback,
                candidates,
                after.below@.dom(),
            )
            &&& text::texts(r.restore_paths@) == changed_after(
                before@,
                after.snapshot@,
                dirty.fallback,
                candidates,
                after.below@.dom(),
            )
        }),
{
    let candidates = restore_candidates(projected_paths, dirty);
    AfterWorker {
        changed_paths: detect_changes(projected, after, dirty.fallback, &candidates),
        restore_paths: detect_changes(before, after, dirty.fallback, &candidates),
    }
}

/// How a run ended: whether something was put back, why that failed, and whether what changed is
/// taken into the lane.
#[derive(Debug, PartialEq, Eq)]
pub struct RunEnd {
    pub restored: bool,
    pub restore_error: Option<String>,
    pub ingest: bool,
}

/// How a run ended, from whether there was something to put back and from how that went.
pub fn run_end(restore_paths: &Vec<String>, failure: Option<String>) -> (r: RunEnd)
    ensures
        restore_paths@.len() == 0 ==> !r.restored && r.restore_error is None && r.ingest,
        restore_paths@.len() > 0 ==> {
            &&& r.restored == (failure is None)
            &&& text::opt_text(r.restore_error) == text::opt_text(failure)
            &&& r.ingest == (failure is None)
        },
{
    if restore_paths.len() == 0 {
        return RunEnd { restored: false, restore_error: None, ingest: true };
    }
    match failure {
        None => RunEnd { restored: true, restore_error: None, ingest: true },
        Some(message) => RunEnd { restored: false, restore_error: Some(message), ingest: false },
    }
}

// Taking what changed into the lane.

/// The file tree after one change was taken into a lane. A path at which there is nothing now is
/// deleted if there was a file.
pub open spec fn take_change(
    fs: Fs,
    lane: Seq<char>,
    files: Set<Seq<char>>,
    change: RawChangeView,
) -> Result<Fs, LaneFsErrorView> {
    if change.content is None && !files.contains(change.path) {
        Ok(fs)
    } else {
        vfs::fs_replace(fs, lane, change.path, change.content)
    }
}

/// The file tree after changes were taken into a lane, and why not all were.
pub open spec fn take_changes(
    fs: Fs,
    lane: Seq<char>,
    files: Set<Seq<char>>,
    changes: Seq<RawChangeView>,
) -> (Fs, Option<LaneFsErrorView>)
    decreases changes.len(),
{
    if changes.len() == 0 {
        (fs, None)
    } else {
        let before = take_changes(fs, lane, files, changes.drop_last());
        if before.1 is Some {
            before
        } else {
            match take_change(before.0, lane, files, changes.last()) {
                Ok(after) => (after, None),
                Err(error) => (before.0, Some(error)),
            }
        }
    }
}

proof fn lemma_take_error(
    fs: Fs,
    lane: Seq<char>,
    files: Set<Seq<char>>,
    changes: Seq<RawChangeView>,
    n: int,
)
    requires
        0 <= n <= changes.len(),
        take_changes(fs, lane, files, changes.subrange(0, n)).1 is Some,
    ensures
        take_changes(fs, lane, files, changes) == take_changes(
            fs,
            lane,
            files,
            changes.subrange(0, n),
        ),
    decreases changes.len() - n,
{
    if n == changes.len() {
        assert(changes.subrange(0, n) =~= changes);
    } else {
        assert(changes.subrange(0, n + 1).drop_last() =~= changes.subrange(0, n));
        lemma_take_error(fs, lane, files, changes, n + 1);
    }
}

/// Takes changes into a lane, up to the first that fails.
pub fn ingest_raw_changes(
    fs: &mut LaneFs,
    lane: &str,
    before: &BaseSnapshot,
    changes: Vec<RawChange>,
) -> (r: Result<(), LaneFsError>)
    requires
        old(fs).wf(),
        before.wf(),
    ensures
        final(fs).wf(),
        (final(fs)@, match r {
            Ok(()) => None,
            Err(error) => Some(error@),
        }) == take_changes(
            old(fs)@,
            lane@,
            before@.files.dom(),
            sorting::views(changes@),
        ),
        r is Ok ==> laws::reads_what_changed(
            old(fs)@,
            final(fs)@,
            lane@,
            before@.files.dom(),
            sorting::views(changes@),
        ),
{
    let ghost all = sorting::views(changes@);
    let ghost files = before@.files.dom();
    let ghost start = fs@;
    let mut i: usize = 0;
    assert(all.subrange(0, 0) =~= Seq::empty());
    while i < changes.len()
        invariant
            i <= changes@.len(),
            all == sorting::views(changes@),
            files == before@.files.dom(),
            start == old(fs)@,
            fs.wf(),
            before.wf(),
            take_changes(start, lane@, files, all.subrange(0, i as int)) == (
                fs@,
                None::<LaneFsErrorView>,
            ),
            laws::reads_what_changed(start, fs@, lane@, files, all.subrange(0, i as int)),
        decreases changes@.len() - i,
    {
        let change = &changes[i];
        let ghost now = fs@;
        proof {
            assert(all.subrange(0, i + 1).drop_last() =~= all.subrange(0, i as int));
            assert(all.subrange(0, i + 1).last() == change@);
        }
        let outcome = match &change.content {
            Some(bytes) => fs.write_file(
                lane,
                change.path.as_str(),
                vstd::slice::slice_to_vec(bytes.as_slice()),
            ),
            None => {
                if before.files.contains_key(change.path.as_str()) {
                    fs.delete_file(lane, change.path.as_str())
                } else {
                    Ok(())
                }
            },
        };
        match outcome {
            Err(error) => {
                proof {
                    lemma_take_error(start, lane@, files, all, i + 1);
                }
                return Err(error);
            },
            Ok(()) => {},
        }
        proof {
            laws::lemma_one_more_change(
                start,
                now,
                fs@,
                lane@,
                files,
                all.subrange(0, i as int),
                change@,
            );
            assert(all.subrange(0, i as int).push(change@) =~= all.subrange(0, i + 1));
        }
        i = i + 1;
    }
    assert(all.subrange(0, i as int) =~= all);
    Ok(())
}

// Laws.

/// A command that changes nothing leaves nothing to take into the lane, and just the paths that
/// the lane changed to put back.
pub proof fn law_idle_command_changes_nothing(
    before: Snapshot,
    projected: Snapshot,
    fallback: bool,
    candidates: Set<Seq<char>>,
    below: Set<Seq<char>>,
)
    ensures
        changed_after(projected, projected, fallback, candidates, below) == Seq::<
            Seq<char>,
        >::empty(),
        fallback ==> changed_after(before, projected, fallback, candidates, below)
            == text_map::listing(snapshot::differing(before, projected)),
{
    let none: Seq<Seq<char>> = Seq::empty();
    assert(text_map::is_listing(none, Set::<Seq<char>>::empty()));
    text_map::lemma_listing(none, Set::<Seq<char>>::empty());
    assert(snapshot::differing(projected, projected) =~= Set::empty());
    assert(snapshot::may_have_changed(projected, candidates, below).filter(
        |path: Seq<char>| snapshot::differs(projected, projected, path),
    ) =~= Set::empty());
}

} // verus!
