//! What the worktree looks like, and in which paths two looks differ.
use vstd::prelude::*;

use crate::commit;
use crate::commit::is_descendant_path;
use crate::text;
use crate::text::{eq_ignore_ascii_case, replace_char, split};
use crate::text_map;
use crate::text_map::{map_keys, TextMap};

verus! {

/// What a file looks like without its contents: its length, and when it was last written, in
/// nanoseconds of the epoch, where that is known.
#[derive(Clone, Copy, Debug, PartialEq, Eq, Structural)]
pub struct SnapshotFile {
    pub len: u64,
    pub modified: Option<i128>,
}

/// The files and directories of a worktree.
#[derive(Debug, PartialEq, Eq)]
pub struct BaseSnapshot {
    pub files: TextMap<SnapshotFile>,
    pub dirs: TextMap<()>,
}

/// A [`BaseSnapshot`] as a mathematical value.
#[verifier::ext_equal]
pub struct Snapshot {
    pub files: Map<Seq<char>, SnapshotFile>,
    pub dirs: Set<Seq<char>>,
}

impl View for BaseSnapshot {
    type V = Snapshot;

    open spec fn view(&self) -> Snapshot {
        Snapshot { files: self.files@, dirs: self.dirs@.dom() }
    }
}

/// What is known of the file at a path.
pub open spec fn file_in(snapshot: Snapshot, path: Seq<char>) -> Option<SnapshotFile> {
    if snapshot.files.contains_key(path) {
        Some(snapshot.files[path])
    } else {
        None
    }
}

/// Whether a path looks different.
pub open spec fn differs(before: Snapshot, after: Snapshot, path: Seq<char>) -> bool {
    file_in(before, path) != file_in(after, path) || before.dirs.contains(path)
        != after.dirs.contains(path)
}

/// Whether a path names a file or a directory.
pub open spec fn known(snapshot: Snapshot, path: Seq<char>) -> bool {
    snapshot.files.contains_key(path) || snapshot.dirs.contains(path)
}

/// The paths that look different.
pub open spec fn differing(before: Snapshot, after: Snapshot) -> Set<Seq<char>> {
    Set::new(
        |path: Seq<char>|
            (known(before, path) || known(after, path)) && differs(before, after, path),
    )
}

fn same_file(a: Option<&SnapshotFile>, b: Option<&SnapshotFile>) -> (r: bool)
    ensures
        r == (match (a, b) {
            (Some(a), Some(b)) => *a == *b,
            (None, None) => true,
            _ => false,
        }),
{
    match (a, b) {
        (Some(a), Some(b)) => a.len == b.len && a.modified == b.modified,
        (None, None) => true,
        _ => false,
    }
}

/// The texts of two sets together.
pub fn add_names(names: &mut TextMap<()>, more: &TextMap<()>)
    requires
        old(names).wf(),
        more.wf(),
    ensures
        final(names).wf(),
        final(names)@.dom() == old(names)@.dom().union(more@.dom()),
{
    let ghost start = names@.dom();
    let mut i: usize = 0;
    proof {
        more.lemma_wf();
    }
    while i < more.len()
        invariant
            i <= more.pairs().len(),
            more.wf(),
            names.wf(),
            forall|k: Seq<char>|
                names@.contains_key(k) ==> start.contains(k) || #[trigger] more@.contains_key(k),
            forall|k: Seq<char>| #[trigger] start.contains(k) ==> names@.contains_key(k),
            forall|m: int| 0 <= m < i ==> names@.contains_key((#[trigger] more.pairs()[m]).0),
        decreases more.pairs().len() - i,
    {
        proof {
            more.lemma_wf();
            assert(more@.contains_key(more.pairs()[i as int].0));
        }
        let _ = names.insert(more.key_at(i).to_owned(), ());
        i = i + 1;
    }
    proof {
        more.lemma_wf();
        assert forall|k: Seq<char>| #[trigger] more@.contains_key(k) implies names@.contains_key(k) by {
            let m = choose|m: int| 0 <= m < more.pairs().len() && (#[trigger] more.pairs()[m]).0 == k;
            assert(names@.contains_key(more.pairs()[m].0));
        }
        assert forall|k: Seq<char>| names@.dom().contains(k) <==> start.union(
            more@.dom(),
        ).contains(k) by {
            if names@.contains_key(k) && !start.contains(k) {
                assert(more@.contains_key(k));
            }
        }
        assert(names@.dom() =~= start.union(more@.dom()));
    }
}

/// The keys of a map as a set.
pub fn key_set<V>(map: &TextMap<V>) -> (r: TextMap<()>)
    requires
        map.wf(),
    ensures
        r.wf(),
        r@.dom() == map@.dom(),
{
    let mut names: TextMap<()> = TextMap::new();
    let mut i: usize = 0;
    proof {
        map.lemma_wf();
    }
    while i < map.len()
        invariant
            i <= map.pairs().len(),
            map.wf(),
            names.wf(),
            forall|k: Seq<char>| #[trigger] names@.contains_key(k) ==> map@.contains_key(k),
            forall|m: int| 0 <= m < i ==> names@.contains_key((#[trigger] map.pairs()[m]).0),
        decreases map.pairs().len() - i,
    {
        proof {
            map.lemma_wf();
            assert(map@.contains_key(map.pairs()[i as int].0));
        }
        let _ = names.insert(map.key_at(i).to_owned(), ());
        i = i + 1;
    }
    proof {
        map.lemma_wf();
        assert forall|k: Seq<char>| #[trigger] map@.contains_key(k) implies names@.contains_key(k) by {
            let m = choose|m: int| 0 <= m < map.pairs().len() && (#[trigger] map.pairs()[m]).0 == k;
            assert(names@.contains_key(map.pairs()[m].0));
        }
        assert(names@.dom() =~= map@.dom());
    }
    names
}

impl BaseSnapshot {
    /// The maps have their keys in order.
    pub open spec fn wf(&self) -> bool {
        self.files.wf() && self.dirs.wf()
    }

    /// Whether a path looks different.
    pub fn path_changed(&self, after: &BaseSnapshot, path: &str) -> (r: bool)
        requires
            self.wf(),
            after.wf(),
        ensures
            r == differs(self@, after@, path@),
    {
        !same_file(self.files.get(path), after.files.get(path)) || self.dirs.contains_key(path)
            != after.dirs.contains_key(path)
    }

    /// Those of some paths that look different.
    pub fn changed_among(&self, after: &BaseSnapshot, paths: &TextMap<()>) -> (r: Vec<String>)
        requires
            self.wf(),
            after.wf(),
            paths.wf(),
        ensures
            text::texts(r@) == text_map::listing(
                paths@.dom().filter(|path: Seq<char>| differs(self@, after@, path)),
            ),
    {
        let ghost goal = paths@.dom().filter(|path: Seq<char>| differs(self@, after@, path));
        let mut changed: TextMap<()> = TextMap::new();
        let mut i: usize = 0;
        proof {
            paths.lemma_wf();
        }
        while i < paths.len()
            invariant
                i <= paths.pairs().len(),
                self.wf(),
                after.wf(),
                paths.wf(),
                changed.wf(),
                goal == paths@.dom().filter(|path: Seq<char>| differs(self@, after@, path)),
                forall|k: Seq<char>| #[trigger] changed@.contains_key(k) ==> goal.contains(k),
                forall|m: int|
                    0 <= m < i && differs(self@, after@, (#[trigger] paths.pairs()[m]).0)
                        ==> changed@.contains_key(paths.pairs()[m].0),
            decreases paths.pairs().len() - i,
        {
            let path = paths.key_at(i);
            proof {
                paths.lemma_wf();
                assert(paths@.contains_key(paths.pairs()[i as int].0));
            }
            if self.path_changed(after, path) {
                let _ = changed.insert(path.to_owned(), ());
            }
            i = i + 1;
        }
        proof {
            paths.lemma_wf();
            changed.lemma_wf();
            assert forall|k: Seq<char>| goal.contains(k) implies #[trigger] changed@.contains_key(k) by {
                assert(paths@.contains_key(k));
                let m = choose|m: int|
                    0 <= m < paths.pairs().len() && (#[trigger] paths.pairs()[m]).0 == k;
                assert(changed@.contains_key(paths.pairs()[m].0));
            }
            assert(changed@.dom() =~= goal);
        }
        map_keys(&changed)
    }

    /// The paths that look different from another look at the whole worktree.
    pub fn changed_paths(&self, after: &BaseSnapshot) -> (r: Vec<String>)
        requires
            self.wf(),
            after.wf(),
        ensures
            text::texts(r@) == text_map::listing(differing(self@, after@)),
    {
        let mut paths = key_set(&self.files);
        add_names(&mut paths, &key_set(&after.files));
        add_names(&mut paths, &self.dirs);
        add_names(&mut paths, &after.dirs);
        proof {
            assert(paths@.dom().filter(|path: Seq<char>| differs(self@, after@, path))
                =~= differing(self@, after@));
        }
        self.changed_among(after, &paths)
    }
}

// Paths that may have changed.

/// The named parts of a path.
pub open spec fn named_parts(path: Seq<char>) -> Seq<Seq<char>> {
    text::split_text(path, '/').filter(|part: Seq<char>| part.len() > 0)
}

/// Whether a path is what some first parts of another name.
pub open spec fn leads_to(path: Seq<char>, whole: Seq<char>) -> bool {
    exists|n: int|
        1 <= n <= named_parts(whole).len() && path == #[trigger] leading_label(whole, n)
}

/// What the first parts of a path name.
pub open spec fn leading_label(path: Seq<char>, n: int) -> Seq<char> {
    text::join_texts(named_parts(path).subrange(0, n), "/"@)
}

/// Adds a path and the paths above it.
pub fn insert_path_and_ancestors(path: &str, paths: &mut TextMap<()>)
    requires
        old(paths).wf(),
    ensures
        final(paths).wf(),
        forall|p: Seq<char>| #[trigger]
            final(paths)@.contains_key(p) <==> old(paths)@.contains_key(p) || leads_to(p, path@),
{
    let parts = split(path, '/');
    let ghost all = text::split_text(path@, '/');
    let ghost named = |part: Seq<char>| part.len() > 0;
    let ghost start = paths@;
    let ghost whole = named_parts(path@);
    let ghost mut count: int = 0;
    let mut current = String::new();
    let mut i: usize = 0;
    proof {
        reveal(Seq::filter);
        assert(all.subrange(0, 0) =~= Seq::empty());
        assert(all.subrange(0, all.len() as int) =~= all);
    }
    while i < parts.len()
        invariant
            i <= parts@.len(),
            all == text::texts(parts@),
            all == text::split_text(path@, '/'),
            named == (|part: Seq<char>| part.len() > 0),
            whole == all.filter(named),
            whole == named_parts(path@),
            paths.wf(),
            count == all.subrange(0, i as int).filter(named).len(),
            current@ == text::join_texts(all.subrange(0, i as int).filter(named), "/"@),
            count == 0 ==> current@.len() == 0,
            count > 0 ==> current@.len() > 0,
            forall|p: Seq<char>| #[trigger]
                paths@.contains_key(p) <==> start.contains_key(p) || exists|n: int|
                    1 <= n <= count && p == #[trigger] text::join_texts(
                        all.subrange(0, i as int).filter(named).subrange(0, n),
                        "/"@,
                    ),
        decreases parts@.len() - i,
    {
        let ghost seen = all.subrange(0, i as int).filter(named);
        let ghost next = all.subrange(0, i + 1).filter(named);
        proof {
            reveal(Seq::filter);
            assert(all.subrange(0, i + 1).drop_last() =~= all.subrange(0, i as int));
            assert(all.subrange(0, i + 1).last() == parts@[i as int]@);
        }
        if !parts[i].as_str().is_empty() {
            let ghost part = parts@[i as int]@;
            let ghost before = current@;
            proof {
                assert(next == seen.push(part));
                assert(next.drop_last() =~= seen);
                reveal_strlit("/");
            }
            if !current.as_str().is_empty() {
                current.push('/');
                assert(current@ =~= before + "/"@);
            }
            let ghost joined = current@;
            current = current.concat(parts[i].as_str());
            let ghost held = paths@;
            let _ = paths.insert(current.clone(), ());
            proof {
                assert(current@ =~= text::join_texts(next, "/"@));
                assert forall|p: Seq<char>| #[trigger] paths@.contains_key(p) <==> start.contains_key(
                    p,
                ) || exists|n: int|
                    1 <= n <= count + 1 && p == #[trigger] text::join_texts(
                        next.subrange(0, n),
                        "/"@,
                    ) by {
                    if held.contains_key(p) && !start.contains_key(p) {
                        let n = choose|n: int|
                            1 <= n <= count && p == #[trigger] text::join_texts(
                                seen.subrange(0, n),
                                "/"@,
                            );
                        assert(seen.subrange(0, n) =~= next.subrange(0, n));
                        assert(p == text::join_texts(next.subrange(0, n), "/"@));
                    }
                    if p == current@ {
                        assert(next.subrange(0, count + 1) =~= next);
                        assert(p == text::join_texts(next.subrange(0, count + 1), "/"@));
                    }
                    if exists|n: int|
                        1 <= n <= count + 1 && p == #[trigger] text::join_texts(
                            next.subrange(0, n),
                            "/"@,
                        ) {
                        let n = choose|n: int|
                            1 <= n <= count + 1 && p == #[trigger] text::join_texts(
                                next.subrange(0, n),
                                "/"@,
                            );
                        if n == count + 1 {
                            assert(next.subrange(0, n) =~= next);
                        } else {
                            assert(seen.subrange(0, n) =~= next.subrange(0, n));
                            assert(p == text::join_texts(seen.subrange(0, n), "/"@));
                        }
                    }
                }
                count = count + 1;
            }
        } else {
            assert(next == seen);
        }
        i = i + 1;
    }
    proof {
        assert(all.subrange(0, i as int) =~= all);
        assert forall|p: Seq<char>| #[trigger] paths@.contains_key(p) <==> start.contains_key(p)
            || leads_to(p, path@) by {
            if leads_to(p, path@) {
                let n = choose|n: int|
                    1 <= n <= whole.len() && p == #[trigger] leading_label(path@, n);
                assert(p == text::join_texts(whole.subrange(0, n), "/"@));
            }
            if exists|n: int|
                1 <= n <= count && p == #[trigger] text::join_texts(whole.subrange(0, n), "/"@) {
                let n = choose|n: int|
                    1 <= n <= count && p == #[trigger] text::join_texts(whole.subrange(0, n), "/"@);
                assert(p == leading_label(path@, n));
            }
        }
    }
}

impl BaseSnapshot {
    /// Adds what is known below a path.
    pub fn insert_known_descendants(&self, path: &str, paths: &mut TextMap<()>)
        requires
            self.wf(),
            old(paths).wf(),
        ensures
            final(paths).wf(),
            forall|p: Seq<char>| #[trigger]
                final(paths)@.contains_key(p) <==> old(paths)@.contains_key(p) || (known(self@, p)
                    && commit::lies_below(p, path@)),
    {
        let mut all = key_set(&self.files);
        add_names(&mut all, &self.dirs);
        let ghost start = paths@;
        let mut i: usize = 0;
        proof {
            all.lemma_wf();
        }
        while i < all.len()
            invariant
                i <= all.pairs().len(),
                all.wf(),
                paths.wf(),
                forall|p: Seq<char>| #[trigger] all@.contains_key(p) <==> known(self@, p),
                forall|p: Seq<char>| #[trigger]
                    paths@.contains_key(p) ==> start.contains_key(p) || (known(self@, p)
                        && commit::lies_below(p, path@)),
                forall|p: Seq<char>| #[trigger] start.contains_key(p) ==> paths@.contains_key(p),
                forall|m: int|
                    0 <= m < i && commit::lies_below((#[trigger] all.pairs()[m]).0, path@)
                        ==> paths@.contains_key(all.pairs()[m].0),
            decreases all.pairs().len() - i,
        {
            let name = all.key_at(i);
            proof {
                all.lemma_wf();
                assert(all@.contains_key(all.pairs()[i as int].0));
            }
            if is_descendant_path(name, path) {
                let _ = paths.insert(name.to_owned(), ());
            }
            i = i + 1;
        }
        proof {
            all.lemma_wf();
            assert forall|p: Seq<char>| known(self@, p) && commit::lies_below(
                p,
                path@,
            ) implies #[trigger] paths@.contains_key(p) by {
                assert(all@.contains_key(p));
                let m = choose|m: int|
                    0 <= m < all.pairs().len() && (#[trigger] all.pairs()[m]).0 == p;
                assert(paths@.contains_key(all.pairs()[m].0));
            }
        }
    }
}

/// Whether a path may have changed where a candidate has: it leads to the candidate, or was known
/// below it.
pub open spec fn touched_by(snapshot: Snapshot, path: Seq<char>, candidate: Seq<char>) -> bool {
    leads_to(path, candidate) || (known(snapshot, path) && commit::lies_below(path, candidate))
}

/// The paths that may have changed, from candidates and from what now lies below them.
pub open spec fn may_have_changed(
    snapshot: Snapshot,
    candidates: Set<Seq<char>>,
    below: Set<Seq<char>>,
) -> Set<Seq<char>> {
    Set::new(
        |path: Seq<char>|
            below.contains(path) || exists|candidate: Seq<char>| #[trigger]
                candidates.contains(candidate) && touched_by(snapshot, path, candidate),
    )
}

impl BaseSnapshot {
    /// The paths that may have changed, from candidates and from what now lies below them.
    pub fn expand_candidate_paths(&self, candidates: &TextMap<()>, below: &TextMap<()>) -> (r:
        TextMap<()>)
        requires
            self.wf(),
            candidates.wf(),
            below.wf(),
        ensures
            r.wf(),
            r@.dom() == may_have_changed(self@, candidates@.dom(), below@.dom()),
    {
        let mut paths: TextMap<()> = TextMap::new();
        let mut i: usize = 0;
        proof {
            candidates.lemma_wf();
        }
        while i < candidates.len()
            invariant
                i <= candidates.pairs().len(),
                self.wf(),
                candidates.wf(),
                paths.wf(),
                forall|p: Seq<char>| #[trigger]
                    paths@.contains_key(p) ==> exists|c: Seq<char>| #[trigger]
                        candidates@.contains_key(c) && touched_by(self@, p, c),
                forall|m: int, p: Seq<char>|
                    0 <= m < i && #[trigger] touched_by(
                        self@,
                        p,
                        (#[trigger] candidates.pairs()[m]).0,
                    ) ==> paths@.contains_key(p),
            decreases candidates.pairs().len() - i,
        {
            let candidate = candidates.key_at(i);
            proof {
                candidates.lemma_wf();
                assert(candidates@.contains_key(candidates.pairs()[i as int].0));
            }
            insert_path_and_ancestors(candidate, &mut paths);
            self.insert_known_descendants(candidate, &mut paths);
            i = i + 1;
        }
        let ghost touched = paths@.dom();
        add_names(&mut paths, below);
        proof {
            candidates.lemma_wf();
            assert forall|p: Seq<char>| paths@.dom().contains(p) <==> may_have_changed(
                self@,
                candidates@.dom(),
                below@.dom(),
            ).contains(p) by {
                if touched.contains(p) {
                    let c = choose|c: Seq<char>| #[trigger]
                        candidates@.contains_key(c) && touched_by(self@, p, c);
                    assert(candidates@.dom().contains(c));
                }
                if exists|c: Seq<char>| #[trigger]
                    candidates@.dom().contains(c) && touched_by(self@, p, c) {
                    let c = choose|c: Seq<char>| #[trigger]
                        candidates@.dom().contains(c) && touched_by(self@, p, c);
                    assert(candidates@.contains_key(c));
                    let m = choose|m: int|
                        0 <= m < candidates.pairs().len() && (#[trigger] candidates.pairs()[m]).0
                            == c;
                    assert(touched_by(self@, p, candidates.pairs()[m].0));
                }
            }
            assert(paths@.dom() =~= may_have_changed(self@, candidates@.dom(), below@.dom()));
        }
        paths
    }

    /// The paths that look different among those that may have changed.
    pub fn changed_paths_for_candidates(
        &self,
        after: &BaseSnapshot,
        candidates: &TextMap<()>,
        below: &TextMap<()>,
    ) -> (r: Vec<String>)
        requires
            self.wf(),
            after.wf(),
            candidates.wf(),
            below.wf(),
        ensures
            text::texts(r@) == text_map::listing(
                may_have_changed(self@, candidates@.dom(), below@.dom()).filter(
                    |path: Seq<char>| differs(self@, after@, path),
                ),
            ),
    {
        let paths = self.expand_candidate_paths(candidates, below);
        self.changed_among(after, &paths)
    }
}

// Looking again at one path.

/// What is now at a path.
#[derive(Debug, PartialEq, Eq)]
pub enum PathLook {
    Nothing,
    File(SnapshotFile),
    Directory(BaseSnapshot),
}

/// A [`PathLook`] as a mathematical value.
pub enum PathLookView {
    Nothing,
    File(SnapshotFile),
    Directory(Snapshot),
}

impl View for PathLook {
    type V = PathLookView;

    open spec fn view(&self) -> PathLookView {
        match self {
            PathLook::Nothing => PathLookView::Nothing,
            PathLook::File(file) => PathLookView::File(*file),
            PathLook::Directory(below) => PathLookView::Directory(below@),
        }
    }
}

/// Whether a path is another or lies below it.
pub open spec fn within(path: Seq<char>, root: Seq<char>) -> bool {
    path == root || commit::lies_below(path, root)
}

/// A snapshot without a path and what lies below it.
pub open spec fn without(snapshot: Snapshot, root: Seq<char>) -> Snapshot {
    Snapshot {
        files: snapshot.files.remove_keys(Set::new(|path: Seq<char>| within(path, root))),
        dirs: snapshot.dirs.filter(|path: Seq<char>| !within(path, root)),
    }
}

/// A snapshot after a new look at one path.
pub open spec fn refreshed(snapshot: Snapshot, path: Seq<char>, look: PathLookView) -> Snapshot {
    let rest = without(snapshot, path);
    match look {
        PathLookView::Nothing => rest,
        PathLookView::File(file) => Snapshot { files: rest.files.insert(path, file), ..rest },
        PathLookView::Directory(below) => Snapshot {
            files: rest.files.union_prefer_right(below.files),
            dirs: rest.dirs.insert(path).union(below.dirs),
        },
    }
}

fn keep_outside<V: Copy>(map: &TextMap<V>, root: &str) -> (r: TextMap<V>)
    requires
        map.wf(),
    ensures
        r.wf(),
        r@ == map@.remove_keys(Set::new(|path: Seq<char>| within(path, root@))),
{
    let ghost goal = map@.remove_keys(Set::new(|path: Seq<char>| within(path, root@)));
    let mut kept: TextMap<V> = TextMap::new();
    let mut i: usize = 0;
    proof {
        map.lemma_wf();
    }
    while i < map.len()
        invariant
            i <= map.pairs().len(),
            map.wf(),
            kept.wf(),
            forall|k: Seq<char>| #[trigger]
                kept@.contains_key(k) ==> map@.contains_key(k) && !within(k, root@) && kept@[k]
                    == map@[k],
            forall|m: int|
                0 <= m < i && !within((#[trigger] map.pairs()[m]).0, root@) ==> kept@.contains_key(
                    map.pairs()[m].0,
                ),
        decreases map.pairs().len() - i,
    {
        let name = map.key_at(i);
        proof {
            map.lemma_wf();
            assert(map@.contains_key(map.pairs()[i as int].0));
        }
        if !(text::text_eq(name, root) || is_descendant_path(name, root)) {
            let value: V = *map.value_at(i);
            let _ = kept.insert(name.to_owned(), value);
        }
        i = i + 1;
    }
    proof {
        map.lemma_wf();
        assert forall|k: Seq<char>| #[trigger] goal.contains_key(k) implies kept@.contains_key(k) by {
            let m = choose|m: int| 0 <= m < map.pairs().len() && (#[trigger] map.pairs()[m]).0 == k;
            assert(kept@.contains_key(map.pairs()[m].0));
        }
        assert(kept@ =~= goal);
    }
    kept
}

/// Takes the files of a snapshot into a map.
fn add_files(files: &mut TextMap<SnapshotFile>, more: &TextMap<SnapshotFile>)
    requires
        old(files).wf(),
        more.wf(),
    ensures
        final(files).wf(),
        final(files)@ == old(files)@.union_prefer_right(more@),
{
    let ghost start = files@;
    let mut i: usize = 0;
    proof {
        more.lemma_wf();
    }
    while i < more.len()
        invariant
            i <= more.pairs().len(),
            more.wf(),
            files.wf(),
            forall|k: Seq<char>| #[trigger]
                files@.contains_key(k) ==> (more@.contains_key(k) && files@[k] == more@[k]) || (
                start.contains_key(k) && files@[k] == start[k]),
            forall|k: Seq<char>| #[trigger] start.contains_key(k) ==> files@.contains_key(k),
            forall|m: int|
                0 <= m < i ==> files@.contains_key((#[trigger] more.pairs()[m]).0)
                    && files@[more.pairs()[m].0] == more@[more.pairs()[m].0],
        decreases more.pairs().len() - i,
    {
        proof {
            more.lemma_wf();
            assert(more@.contains_key(more.pairs()[i as int].0));
        }
        let value: SnapshotFile = *more.value_at(i);
        let _ = files.insert(more.key_at(i).to_owned(), value);
        i = i + 1;
    }
    proof {
        more.lemma_wf();
        assert forall|k: Seq<char>| #[trigger] more@.contains_key(k) implies files@.contains_key(k)
            && files@[k] == more@[k] by {
            let m = choose|m: int| 0 <= m < more.pairs().len() && (#[trigger] more.pairs()[m]).0 == k;
            assert(files@.contains_key(more.pairs()[m].0));
        }
        assert(files@ =~= start.union_prefer_right(more@));
    }
}

impl BaseSnapshot {
    /// Forgets a path and what lies below it.
    pub fn remove_path_and_descendants(&mut self, path: &str)
        requires
            old(self).wf(),
        ensures
            final(self).wf(),
            final(self)@ == without(old(self)@, path@),
    {
        let ghost before = self@;
        self.files = keep_outside(&self.files, path);
        self.dirs = keep_outside(&self.dirs, path);
        assert(self@.dirs =~= without(before, path@).dirs);
    }

    /// Takes account of a new look at one path.
    pub fn refresh_path(&mut self, path: &str, look: &PathLook)
        requires
            old(self).wf(),
            look matches PathLook::Directory(below) ==> below.wf(),
        ensures
            final(self).wf(),
            final(self)@ == refreshed(old(self)@, path@, look@),
    {
        self.remove_path_and_descendants(path);
        let ghost rest = self@;
        match look {
            PathLook::Nothing => {},
            PathLook::File(file) => {
                let _ = self.files.insert(path.to_owned(), *file);
            },
            PathLook::Directory(below) => {
                let _ = self.dirs.insert(path.to_owned(), ());
                assert(self.dirs@.dom() =~= rest.dirs.insert(path@));
                add_files(&mut self.files, &below.files);
                add_names(&mut self.dirs, &below.dirs);
            },
        }
        assert(self@ =~= refreshed(old(self)@, path@, look@));
    }
}

// Directories that are not watched.

/// Whether a part of a path names a directory that is not watched.
pub open spec fn unwatched_name(name: Seq<char>) -> bool {
    text::same_ignoring_ascii_case(name, ".git"@) || text::same_ignoring_ascii_case(name, ".lane"@)
        || text::same_ignoring_ascii_case(name, "coverage"@) || text::same_ignoring_ascii_case(
        name,
        "dist"@,
    ) || text::same_ignoring_ascii_case(name, "node_modules"@) || text::same_ignoring_ascii_case(
        name,
        "target"@,
    )
}

/// Whether a path lies in a directory that is not watched.
pub fn should_skip_exec_guard_dir(label: &str) -> (r: bool)
    ensures
        r == unwatched_name(text::split_text(label@, '/')[0]),
{
    let parts = split(label, '/');
    let name = parts[0].as_str();
    assert(name@ == text::texts(parts@)[0]);
    eq_ignore_ascii_case(name, ".git") || eq_ignore_ascii_case(name, ".lane")
        || eq_ignore_ascii_case(name, "coverage") || eq_ignore_ascii_case(name, "dist")
        || eq_ignore_ascii_case(name, "node_modules") || eq_ignore_ascii_case(name, "target")
}

/// The label of a path of the worktree that is watched.
pub open spec fn watched_label(relative: Seq<char>) -> Option<Seq<char>> {
    let label = text::with_char_replaced(relative, '\\', '/');
    if relative.len() == 0 || unwatched_name(text::split_text(label, '/')[0]) {
        None
    } else {
        Some(label)
    }
}

/// The label of a path of the worktree that is watched.
pub fn event_label(relative: &str) -> (r: Option<String>)
    ensures
        text::opt_text(r) == watched_label(relative@),
{
    let label = replace_char(relative, '\\', '/');
    if relative.is_empty() || should_skip_exec_guard_dir(label.as_str()) {
        None
    } else {
        Some(label)
    }
}

/// How many files there must be before they are read side by side.
pub const PARALLEL_BACKUP_MIN_FILES: usize = 32;

/// How many readers there may be.
pub const PARALLEL_BACKUP_MAX_WORKERS: usize = 8;

/// The number of readers for some files on a machine that runs so many threads at once.
pub open spec fn worker_count(files: nat, parallelism: nat) -> nat {
    if files < PARALLEL_BACKUP_MIN_FILES {
        1
    } else if parallelism < PARALLEL_BACKUP_MAX_WORKERS {
        parallelism
    } else {
        PARALLEL_BACKUP_MAX_WORKERS as nat
    }
}

/// The number of readers for some files on a machine that runs so many threads at once.
pub fn backup_worker_count(file_count: usize, parallelism: usize) -> (r: usize)
    ensures
        r == worker_count(file_count as nat, parallelism as nat),
        parallelism >= 1 ==> 1 <= r <= PARALLEL_BACKUP_MAX_WORKERS,
        file_count >= 1 ==> r <= file_count,
{
    if file_count < PARALLEL_BACKUP_MIN_FILES {
        return 1;
    }
    let mut count: usize = parallelism;
    if count > PARALLEL_BACKUP_MAX_WORKERS {
        count = PARALLEL_BACKUP_MAX_WORKERS;
    }
    if count > file_count {
        count = file_count;
    }
    count
}

/// How many files each reader takes: so many that all are taken.
pub fn backup_chunk_size(file_count: usize, workers: usize) -> (r: usize)
    requires
        workers >= 1,
    ensures
        r * workers >= file_count,
        file_count > 0 ==> (r - 1) * workers < file_count,
{
    let whole: usize = file_count / workers;
    proof {
        vstd::arithmetic::div_mod::lemma_fundamental_div_mod(file_count as int, workers as int);
        vstd::arithmetic::mul::lemma_mul_is_commutative(whole as int, workers as int);
        vstd::arithmetic::mul::lemma_mul_is_distributive_sub_other_way(
            workers as int,
            whole as int,
            1,
        );
        vstd::arithmetic::mul::lemma_mul_is_distributive_add_other_way(
            workers as int,
            whole as int,
            1,
        );
        vstd::arithmetic::div_mod::lemma_div_is_ordered_by_denominator(
            file_count as int,
            1,
            workers as int,
        );
    }
    if file_count % workers == 0 {
        whole
    } else {
        proof {
            if workers == 1 {
                assert(file_count % workers == 0);
            }
            assert(whole <= file_count / 2) by {
                vstd::arithmetic::div_mod::lemma_div_is_ordered_by_denominator(
                    file_count as int,
                    2,
                    workers as int,
                );
            }
        }
        whole + 1
    }
}

} // verus!
