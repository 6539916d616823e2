//! Putting the worktree back as it was.
use vstd::prelude::*;

use crate::materialize::snapshot;
use crate::materialize::snapshot::{BaseSnapshot, SnapshotFile};
use crate::sorting;
use crate::sorting::{sort_list, Ranked};
use crate::text;
use crate::text::split;
use crate::text_map::TextMap;

verus! {

/// A step that puts a file back: its bytes are written, or it is removed.
#[derive(Debug, PartialEq, Eq)]
pub struct RestoreStep {
    pub path: String,
    pub bytes: Option<Vec<u8>>,
}

/// A [`RestoreStep`] as a mathematical value.
#[verifier::ext_equal]
pub struct RestoreStepView {
    pub path: Seq<char>,
    pub bytes: Option<Seq<u8>>,
}

/// Optional bytes as a mathematical value.
pub open spec fn opt_bytes(bytes: Option<Vec<u8>>) -> Option<Seq<u8>> {
    match bytes {
        Some(bytes) => Some(bytes@),
        None => None,
    }
}

impl View for RestoreStep {
    type V = RestoreStepView;

    open spec fn view(&self) -> RestoreStepView {
        RestoreStepView { path: self.path@, bytes: opt_bytes(self.bytes) }
    }
}

/// The steps that put files back, up to the first whose bytes were not kept.
#[derive(Debug, PartialEq, Eq)]
pub struct RestorePlan {
    pub steps: Vec<RestoreStep>,
    pub missing: Option<String>,
}

/// A [`RestorePlan`] as a mathematical value.
#[verifier::ext_equal]
pub struct RestorePlanView {
    pub steps: Seq<RestoreStepView>,
    pub missing: Option<Seq<char>>,
}

impl View for RestorePlan {
    type V = RestorePlanView;

    open spec fn view(&self) -> RestorePlanView {
        RestorePlanView {
            steps: sorting::views(self.steps@),
            missing: text::opt_text(self.missing),
        }
    }
}

/// Kept bytes as mathematical values.
pub open spec fn backup_map(backup: Map<Seq<char>, Vec<u8>>) -> Map<Seq<char>, Seq<u8>> {
    backup.map_values(|bytes: Vec<u8>| bytes@)
}

/// The message about bytes that were not kept.
pub open spec fn missing_backup(path: Seq<char>) -> Seq<char> {
    "missing restore backup for "@ + path
}

/// The steps that put the files at some paths back.
pub open spec fn restore_plan(
    before: Map<Seq<char>, SnapshotFile>,
    now: Map<Seq<char>, SnapshotFile>,
    backup: Map<Seq<char>, Seq<u8>>,
    paths: Seq<Seq<char>>,
) -> RestorePlanView
    decreases paths.len(),
{
    if paths.len() == 0 {
        RestorePlanView { steps: Seq::empty(), missing: None }
    } else {
        let plan = restore_plan(before, now, backup, paths.drop_last());
        let path = paths.last();
        if plan.missing is Some || same_in(before, now, path) {
            plan
        } else if !before.contains_key(path) {
            RestorePlanView {
                steps: plan.steps.push(RestoreStepView { path, bytes: None }),
                ..plan
            }
        } else if backup.contains_key(path) {
            RestorePlanView {
                steps: plan.steps.push(RestoreStepView { path, bytes: Some(backup[path]) }),
                ..plan
            }
        } else {
            RestorePlanView { missing: Some(missing_backup(path)), ..plan }
        }
    }
}

/// Whether the file at a path looks as it did.
pub open spec fn same_in(
    before: Map<Seq<char>, SnapshotFile>,
    now: Map<Seq<char>, SnapshotFile>,
    path: Seq<char>,
) -> bool {
    before.contains_key(path) == now.contains_key(path) && (before.contains_key(path)
        ==> before[path] == now[path])
}

fn looks_same(before: &TextMap<SnapshotFile>, now: &TextMap<SnapshotFile>, path: &str) -> (r: bool)
    requires
        before.wf(),
        now.wf(),
    ensures
        r == same_in(before@, now@, path@),
{
    match (before.get(path), now.get(path)) {
        (Some(a), Some(b)) => a.len == b.len && a.modified == b.modified,
        (None, None) => true,
        _ => false,
    }
}

impl BaseSnapshot {
    /// The steps that put the files at some paths back, from what they look like now and from
    /// the bytes that were kept of them.
    pub fn restore_files(
        &self,
        now: &TextMap<SnapshotFile>,
        backup: &TextMap<Vec<u8>>,
        paths: &Vec<String>,
    ) -> (r: RestorePlan)
        requires
            self.wf(),
            now.wf(),
            backup.wf(),
        ensures
            r@ == restore_plan(self@.files, now@, backup_map(backup@), text::texts(paths@)),
    {
        let ghost kept = backup_map(backup@);
        let ghost all = text::texts(paths@);
        let mut plan = RestorePlan { steps: Vec::new(), missing: None };
        let mut i: usize = 0;
        proof {
            assert(all.subrange(0, 0) =~= Seq::empty());
            assert(plan@ =~= restore_plan(self@.files, now@, kept, all.subrange(0, 0)));
        }
        while i < paths.len()
            invariant
                i <= paths@.len(),
                self.wf(),
                now.wf(),
                backup.wf(),
                kept == backup_map(backup@),
                all == text::texts(paths@),
                plan@ == restore_plan(self@.files, now@, kept, all.subrange(0, i as int)),
            decreases paths@.len() - i,
        {
            let path = paths[i].as_str();
            let ghost before = plan@;
            proof {
                assert(all.subrange(0, i + 1).drop_last() =~= all.subrange(0, i as int));
                assert(all.subrange(0, i + 1).last() == path@);
            }
            if plan.missing.is_none() && !looks_same(&self.files, now, path) {
                if !self.files.contains_key(path) {
                    plan.steps.push(RestoreStep { path: path.to_owned(), bytes: None });
                    assert(plan@.steps =~= before.steps.push(
                        RestoreStepView { path: path@, bytes: None },
                    ));
                } else {
                    match backup.get(path) {
                        Some(bytes) => {
                            assert(kept[path@] == bytes@);
                            plan.steps.push(
                                RestoreStep {
                                    path: path.to_owned(),
                                    bytes: Some(vstd::slice::slice_to_vec(bytes.as_slice())),
                                },
                            );
                            assert(plan@.steps =~= before.steps.push(
                                RestoreStepView { path: path@, bytes: Some(bytes@) },
                            ));
                        },
                        None => {
                            plan.missing = Some(
                                "missing restore backup for ".to_owned().concat(path),
                            );
                        },
                    }
                }
            }
            assert(plan@ =~= restore_plan(self@.files, now@, kept, all.subrange(0, i + 1)));
            i = i + 1;
        }
        assert(all.subrange(0, i as int) =~= all);
        plan
    }

    /// Those of some paths that were directories and are none now.
    pub fn missing_dirs(&self, paths: &Vec<String>, dirs_now: &TextMap<()>) -> (r: Vec<String>)
        requires
            self.wf(),
            dirs_now.wf(),
        ensures
            text::texts(r@) == text::texts(paths@).filter(
                |path: Seq<char>| self@.dirs.contains(path) && !dirs_now@.dom().contains(path),
            ),
    {
        let ghost lost = |path: Seq<char>|
            self@.dirs.contains(path) && !dirs_now@.dom().contains(path);
        let ghost all = text::texts(paths@);
        let mut out: Vec<String> = Vec::new();
        let mut i: usize = 0;
        proof {
            reveal(Seq::filter);
            assert(text::texts(out@) =~= all.subrange(0, 0).filter(lost));
        }
        while i < paths.len()
            invariant
                i <= paths@.len(),
                self.wf(),
                dirs_now.wf(),
                lost == (|path: Seq<char>|
                    self@.dirs.contains(path) && !dirs_now@.dom().contains(path)),
                all == text::texts(paths@),
                text::texts(out@) == all.subrange(0, i as int).filter(lost),
            decreases paths@.len() - i,
        {
            let path = paths[i].as_str();
            let ghost before = text::texts(out@);
            proof {
                reveal(Seq::filter);
                assert(all.subrange(0, i + 1).drop_last() =~= all.subrange(0, i as int));
                assert(all.subrange(0, i + 1).last() == path@);
            }
            if self.dirs.contains_key(path) && !dirs_now.contains_key(path) {
                out.push(path.to_owned());
                assert(text::texts(out@) =~= before.push(path@));
            }
            i = i + 1;
        }
        assert(all.subrange(0, i as int) =~= all);
        out
    }

    /// Those of some paths that are directories now and were nothing before, the deepest first.
    pub fn created_dirs(&self, paths: &Vec<String>, dirs_now: &TextMap<()>) -> (r: Vec<CreatedDir>)
        requires
            self.wf(),
            dirs_now.wf(),
        ensures
            sorting::views(r@) == sorting::ordered::<CreatedDir>(
                text::texts(paths@).filter(
                    |path: Seq<char>|
                        !snapshot::known(self@, path) && dirs_now@.dom().contains(path),
                ),
            ),
    {
        let ghost fresh = |path: Seq<char>|
            !snapshot::known(self@, path) && dirs_now@.dom().contains(path);
        let ghost all = text::texts(paths@);
        let mut out: Vec<CreatedDir> = Vec::new();
        let mut i: usize = 0;
        proof {
            reveal(Seq::filter);
            assert(sorting::views(out@) =~= all.subrange(0, 0).filter(fresh));
        }
        while i < paths.len()
            invariant
                i <= paths@.len(),
                self.wf(),
                dirs_now.wf(),
                fresh == (|path: Seq<char>|
                    !snapshot::known(self@, path) && dirs_now@.dom().contains(path)),
                all == text::texts(paths@),
                sorting::views(out@) == all.subrange(0, i as int).filter(fresh),
            decreases paths@.len() - i,
        {
            let path = paths[i].as_str();
            let ghost before = sorting::views(out@);
            proof {
                reveal(Seq::filter);
                assert(all.subrange(0, i + 1).drop_last() =~= all.subrange(0, i as int));
                assert(all.subrange(0, i + 1).last() == path@);
            }
            if !self.dirs.contains_key(path) && dirs_now.contains_key(path)
                && !self.files.contains_key(path) {
                out.push(CreatedDir { path: path.to_owned() });
                assert(sorting::views(out@) =~= before.push(path@));
            }
            i = i + 1;
        }
        assert(all.subrange(0, i as int) =~= all);
        sort_list(out)
    }
}

/// A directory that a command created. Deeper ones come first.
#[derive(Debug, PartialEq, Eq)]
pub struct CreatedDir {
    pub path: String,
}

impl View for CreatedDir {
    type V = Seq<char>;

    open spec fn view(&self) -> Seq<char> {
        self.path@
    }
}

/// The number of parts of a path.
pub fn path_depth(path: &str) -> (r: usize)
    ensures
        r == text::split_text(path@, '/').len(),
{
    let parts = split(path, '/');
    assert(text::texts(parts@).len() == parts@.len());
    parts.len()
}

impl Ranked for CreatedDir {
    open spec fn before(a: Seq<char>, b: Seq<char>) -> bool {
        text::split_text(a, '/').len() > text::split_text(b, '/').len()
    }

    fn is_before(&self, other: &Self) -> (r: bool) {
        path_depth(self.path.as_str()) > path_depth(other.path.as_str())
    }

    proof fn lemma_asymmetric(a: Seq<char>, b: Seq<char>) {
    }

    proof fn lemma_weak(a: Seq<char>, b: Seq<char>, c: Seq<char>) {
    }
}

// Laws.

/// The files of a worktree after some steps.
pub open spec fn after_steps(files: Map<Seq<char>, Seq<u8>>, steps: Seq<RestoreStepView>) -> Map<
    Seq<char>,
    Seq<u8>,
>
    decreases steps.len(),
{
    if steps.len() == 0 {
        files
    } else {
        let before = after_steps(files, steps.drop_last());
        match steps.last().bytes {
            Some(bytes) => before.insert(steps.last().path, bytes),
            None => before.remove(steps.last().path),
        }
    }
}


/// Putting files back gives every path that looked different the bytes that were kept of it, or
/// removes it where there was no file, and leaves all other files alone.
pub proof fn law_restore_puts_files_back(
    before: Map<Seq<char>, SnapshotFile>,
    now: Map<Seq<char>, SnapshotFile>,
    backup: Map<Seq<char>, Seq<u8>>,
    paths: Seq<Seq<char>>,
    files: Map<Seq<char>, Seq<u8>>,
    path: Seq<char>,
)
    requires
        restore_plan(before, now, backup, paths).missing is None,
    ensures
        ({
            let after = after_steps(files, restore_plan(before, now, backup, paths).steps);
            if paths.contains(path) && (before.contains_key(path) != now.contains_key(path)
                || before.contains_key(path) && before[path] != now[path]) {
                if before.contains_key(path) {
                    after.contains_key(path) && backup.contains_key(path) && after[path]
                        == backup[path]
                } else {
                    !after.contains_key(path)
                }
            } else {
                after.contains_key(path) == files.contains_key(path) && (files.contains_key(path)
                    ==> after[path] == files[path])
            }
        }),
    decreases paths.len(),
{
    if paths.len() > 0 {
        let rest = paths.drop_last();
        let last = paths.last();
        law_restore_puts_files_back(before, now, backup, rest, files, path);
        let plan = restore_plan(before, now, backup, rest);
        let whole = restore_plan(before, now, backup, paths);
        assert(paths.contains(path) <==> rest.contains(path) || path == last) by {
            if paths.contains(path) {
                let i = choose|i: int| 0 <= i < paths.len() && paths[i] == path;
                if i < rest.len() {
                    assert(rest[i] == path);
                }
            }
            if rest.contains(path) {
                let i = choose|i: int| 0 <= i < rest.len() && rest[i] == path;
                assert(paths[i] == path);
            }
            assert(paths[paths.len() - 1] == last);
        }
        if !same_in(before, now, last) {
            assert(whole.steps.drop_last() =~= plan.steps);
        }
    }
}

} // verus!
