//! Promotion of lane operations into the base files: what is written, in which order, and what is
//! put back where a write fails.
use vstd::prelude::*;

use crate::lane_file;
use crate::promotion;
use crate::repo;
use crate::repo::{LaneRepo, Repo};
use crate::sorting;
use crate::sorting::{sort_list, Ranked};
use crate::text;
use crate::text::{contains_text, join, split, text_begins_with, text_order, TextOrder};
use crate::text_map;
use crate::text_map::TextMap;
use crate::upkeep;
use crate::vfs;
use crate::vfs::{normalize_repo_path, Fs, LaneFs, LaneFsError, LaneFsErrorView};

verus! {

/// The number of components of a path.
pub open spec fn depth_of(path: Seq<char>) -> nat {
    text::split_text(path, '/').filter(|part: Seq<char>| part.len() > 0).len()
}

/// The number of components of a path.
pub fn path_depth(path: &str) -> (r: usize)
    ensures
        r == depth_of(path@),
{
    let parts = split(path, '/');
    let ghost all = text::split_text(path@, '/');
    let ghost named = |part: Seq<char>| part.len() > 0;
    let mut count: usize = 0;
    let mut i: usize = 0;
    let n: usize = parts.len();
    reveal(Seq::filter);
    assert(all.subrange(0, 0) =~= Seq::empty());
    while i < n
        invariant
            i <= n == parts@.len(),
            all == text::texts(parts@),
            named == (|part: Seq<char>| part.len() > 0),
            count == all.subrange(0, i as int).filter(named).len(),
            count <= i,
        decreases n - i,
    {
        assert(all.subrange(0, i + 1).drop_last() =~= all.subrange(0, i as int));
        assert(all.subrange(0, i + 1).last() == parts@[i as int]@);
        reveal(Seq::filter);
        if !parts[i].as_str().is_empty() {
            count = count + 1;
        }
        i = i + 1;
    }
    assert(all.subrange(0, i as int) =~= all);
    count
}

/// Whether a path lies below another.
pub open spec fn lies_below(path: Seq<char>, ancestor: Seq<char>) -> bool {
    text::begins_with(path, ancestor + "/"@)
}

/// Whether a path lies below another.
pub fn is_descendant_path(path: &str, ancestor: &str) -> (r: bool)
    ensures
        r == lies_below(path@, ancestor@),
{
    text_begins_with(path, ancestor.to_owned().concat("/").as_str())
}

/// The first `n` components of a path.
pub open spec fn leading_path(path: Seq<char>, n: int) -> Seq<char> {
    text::join_texts(text::split_text(path, '/').subrange(0, n), "/"@)
}

/// The paths above a path, the longest first.
pub open spec fn ancestors_of(path: Seq<char>) -> Seq<Seq<char>> {
    let n = text::split_text(path, '/').len();
    Seq::new((n - 1) as nat, |i: int| leading_path(path, n - 1 - i))
}

/// The paths above a path, the longest first.
pub fn ancestor_paths(path: &str) -> (r: Vec<String>)
    ensures
        text::texts(r@) == ancestors_of(path@),
{
    let mut parts = split(path, '/');
    let ghost all = text::split_text(path@, '/');
    let mut ancestors: Vec<String> = Vec::new();
    proof {
        text::lemma_split_text_nonempty(path@, '/');
        assert(all.subrange(0, all.len() as int) =~= all);
    }
    while parts.len() > 1
        invariant
            1 <= parts@.len() <= all.len(),
            all == text::split_text(path@, '/'),
            text::texts(parts@) == all.subrange(0, parts@.len() as int),
            ancestors@.len() == all.len() - parts@.len(),
            forall|i: int|
                0 <= i < ancestors@.len() ==> (#[trigger] ancestors@[i])@ == leading_path(
                    path@,
                    all.len() - 1 - i,
                ),
        decreases parts@.len(),
    {
        let ghost before = parts@;
        let _ = parts.pop();
        assert(text::texts(parts@) =~= all.subrange(0, parts@.len() as int)) by {
            assert(forall|i: int|
                0 <= i < parts@.len() ==> text::texts(parts@)[i] == text::texts(before)[i]);
        }
        ancestors.push(join(&parts, "/"));
    }
    assert(text::texts(ancestors@) =~= ancestors_of(path@));
    ancestors
}

/// A path to be removed or put back. Deeper paths come first.
#[derive(Debug, PartialEq, Eq)]
pub struct Removal {
    pub path: String,
}

impl View for Removal {
    type V = Seq<char>;

    open spec fn view(&self) -> Seq<char> {
        self.path@
    }
}

/// A file to be written. Shallower paths come first.
#[derive(Debug, PartialEq, Eq)]
pub struct FileWrite {
    pub path: String,
    pub bytes: Vec<u8>,
}

impl View for FileWrite {
    type V = (Seq<char>, Seq<u8>);

    open spec fn view(&self) -> (Seq<char>, Seq<u8>) {
        (self.path@, self.bytes@)
    }
}

/// Shallower paths first, and among those of one depth in text order.
pub open spec fn shallower(a: Seq<char>, b: Seq<char>) -> bool {
    depth_of(a) < depth_of(b) || (depth_of(a) == depth_of(b) && text::text_lt(a, b))
}

fn is_shallower(a: &str, b: &str) -> (r: bool)
    ensures
        r == shallower(a@, b@),
{
    let left: usize = path_depth(a);
    let right: usize = path_depth(b);
    proof {
        text::lemma_text_lt_irreflexive(a@);
    }
    left < right || (left == right && match text_order(a, b) {
        TextOrder::Before => true,
        _ => false,
    })
}

proof fn lemma_shallower(a: Seq<char>, b: Seq<char>, c: Seq<char>)
    ensures
        shallower(a, b) ==> !shallower(b, a),
        shallower(a, c) ==> shallower(a, b) || shallower(b, c),
        a != b ==> shallower(a, b) || shallower(b, a),
{
    text::lemma_text_lt_irreflexive(a);
    text::lemma_text_lt_total(a, b);
    text::lemma_text_lt_total(b, c);
    if text::text_lt(a, b) && text::text_lt(b, a) {
        text::lemma_text_lt_transitive(a, b, a);
    }
    if text::text_lt(b, a) && text::text_lt(a, c) {
        text::lemma_text_lt_transitive(b, a, c);
    }
}

impl Ranked for Removal {
    open spec fn before(a: Seq<char>, b: Seq<char>) -> bool {
        shallower(b, a)
    }

    fn is_before(&self, other: &Self) -> (r: bool) {
        is_shallower(other.path.as_str(), self.path.as_str())
    }

    proof fn lemma_asymmetric(a: Seq<char>, b: Seq<char>) {
        lemma_shallower(b, a, a);
    }

    proof fn lemma_weak(a: Seq<char>, b: Seq<char>, c: Seq<char>) {
        lemma_shallower(c, b, a);
    }
}

impl Ranked for FileWrite {
    open spec fn before(a: (Seq<char>, Seq<u8>), b: (Seq<char>, Seq<u8>)) -> bool {
        shallower(a.0, b.0)
    }

    fn is_before(&self, other: &Self) -> (r: bool) {
        is_shallower(self.path.as_str(), other.path.as_str())
    }

    proof fn lemma_asymmetric(a: (Seq<char>, Seq<u8>), b: (Seq<char>, Seq<u8>)) {
        lemma_shallower(a.0, b.0, b.0);
    }

    proof fn lemma_weak(a: (Seq<char>, Seq<u8>), b: (Seq<char>, Seq<u8>), c: (Seq<char>, Seq<u8>)) {
        lemma_shallower(a.0, b.0, c.0);
    }
}

/// A base file after a promotion: its bytes, or that it is gone.
#[derive(Debug, PartialEq, Eq)]
pub struct PromotedFile {
    pub path: String,
    pub bytes: Option<Vec<u8>>,
}

impl View for PromotedFile {
    type V = (Seq<char>, Option<Seq<u8>>);

    open spec fn view(&self) -> (Seq<char>, Option<Seq<u8>>) {
        (self.path@, lane_file::opt_vec(self.bytes))
    }
}

/// The operations to be promoted at one path.
#[derive(Debug, PartialEq, Eq)]
pub struct PathOps {
    pub path: String,
    pub ops: Vec<String>,
}

impl View for PathOps {
    type V = (Seq<char>, Seq<Seq<char>>);

    open spec fn view(&self) -> (Seq<char>, Seq<Seq<char>>) {
        (self.path@, text::texts(self.ops@))
    }
}

/// A promotion that is ready to be carried out: the repo that it leaves and the base files that it
/// changes.
#[derive(Debug, PartialEq, Eq)]
pub struct Promoted {
    pub repo: LaneRepo,
    pub files: Vec<PromotedFile>,
}

/// The selections with their paths in normal form, or the first error.
pub open spec fn named_selections(selections: Seq<(Seq<char>, Seq<Seq<char>>)>) -> Result<
    Seq<(Seq<char>, Seq<Seq<char>>)>,
    LaneFsErrorView,
>
    decreases selections.len(),
{
    if selections.len() == 0 {
        Ok(Seq::empty())
    } else {
        match named_selections(selections.drop_last()) {
            Err(error) => Err(error),
            Ok(named) => match vfs::repo_path(selections.last().0) {
                Err(error) => Err(error),
                Ok(path) => Ok(named.push((path, selections.last().1))),
            },
        }
    }
}

/// The outcome of promoting operations path by path, or the first error.
pub open spec fn promoted_files(
    fs: Fs,
    lane: Seq<char>,
    selections: Seq<(Seq<char>, Seq<Seq<char>>)>,
) -> Result<(Seq<(Seq<char>, Option<Seq<u8>>)>, Repo), LaneFsErrorView>
    decreases selections.len(),
{
    if selections.len() == 0 {
        Ok((Seq::empty(), fs.repo))
    } else {
        match promoted_files(fs, lane, selections.drop_last()) {
            Err(error) => Err(error),
            Ok((files, draft)) => {
                let (path, ops) = selections.last();
                match repo::repo_promote_ops(draft, path, lane, vfs::base_at(fs.files, path), ops) {
                    Err(error) => Err(LaneFsErrorView::Lane(error)),
                    Ok((bytes, after)) => Ok((files.push((path, bytes)), after)),
                }
            },
        }
    }
}

/// The outcome of promoting selected operations of a lane.
pub open spec fn fs_promote(
    fs: Fs,
    lane: Seq<char>,
    selections: Seq<(Seq<char>, Seq<Seq<char>>)>,
) -> Result<(Seq<(Seq<char>, Option<Seq<u8>>)>, Repo), LaneFsErrorView> {
    match named_selections(selections) {
        Err(error) => Err(error),
        Ok(named) => promoted_files(fs, lane, named),
    }
}

/// The view of the outcome of a promotion.
pub open spec fn promoted_view(r: Result<Promoted, LaneFsError>) -> Result<
    (Seq<(Seq<char>, Option<Seq<u8>>)>, Repo),
    LaneFsErrorView,
> {
    match r {
        Ok(promoted) => Ok((sorting::views(promoted.files@), promoted.repo@)),
        Err(error) => Err(error@),
    }
}

/// The outcome of promoting one operation of a lane with other bytes in its place.
pub open spec fn fs_resolve(
    fs: Fs,
    lane: Seq<char>,
    raw: Seq<char>,
    name: Seq<char>,
    replacement: Seq<u8>,
) -> Result<(Seq<(Seq<char>, Option<Seq<u8>>)>, Repo), LaneFsErrorView> {
    match vfs::repo_path(raw) {
        Err(error) => Err(error),
        Ok(path) => match repo::repo_resolve_op(
            fs.repo,
            path,
            lane,
            vfs::base_at(fs.files, path),
            name,
            replacement,
        ) {
            Err(error) => Err(LaneFsErrorView::Lane(error)),
            Ok((bytes, after)) => Ok((seq![(path, bytes)], after)),
        },
    }
}

/// The base files after a promotion.
pub open spec fn files_after(
    files: Map<Seq<char>, Seq<u8>>,
    promoted: Seq<(Seq<char>, Option<Seq<u8>>)>,
) -> Map<Seq<char>, Seq<u8>>
    decreases promoted.len(),
{
    if promoted.len() == 0 {
        files
    } else {
        let before = files_after(files, promoted.drop_last());
        match promoted.last().1 {
            Some(bytes) => before.insert(promoted.last().0, bytes),
            None => before.remove(promoted.last().0),
        }
    }
}

/// Where overlays rested on the base files, those of a promoted repo rest on them with the
/// promoted files.
pub open spec fn rests_once_committed(
    fs: Fs,
    files: Seq<(Seq<char>, Option<Seq<u8>>)>,
    repo: Repo,
) -> bool {
    vfs::fs_rests(fs) ==> vfs::fs_rests(Fs { repo, files: files_after(fs.files, files) })
}

/// Promoting one more path that has not been promoted before.
pub(crate) proof fn lemma_rests_once_committed(
    fs: Fs,
    files: Seq<(Seq<char>, Option<Seq<u8>>)>,
    draft: Repo,
    after: Repo,
    path: Seq<char>,
    promoted: Option<Seq<u8>>,
)
    requires
        rests_once_committed(fs, files, draft),
        upkeep::repo_tidy(draft) ==> upkeep::repo_tidy(after),
        upkeep::rests_after(draft, after, path, vfs::base_at(fs.files, path), promoted),
        forall|j: int| 0 <= j < files.len() ==> (#[trigger] files[j]).0 != path,
    ensures
        rests_once_committed(fs, files.push((path, promoted)), after),
{
    let more = files.push((path, promoted));
    assert(more.drop_last() =~= files);
    law_commit_is_local(fs.files, files, path);
    let bases = vfs::bases_of(files_after(fs.files, files));
    assert(bases[path] == vfs::base_at(fs.files, path));
    assert(vfs::bases_of(files_after(fs.files, more)) =~= bases.insert(path, promoted));
}

/// No path is selected twice.
pub open spec fn paths_differ(named: Seq<(Seq<char>, Seq<Seq<char>>)>) -> bool {
    forall|i: int, j: int|
        0 <= i < j < named.len() ==> (#[trigger] named[i]).0 != (#[trigger] named[j]).0
}

proof fn lemma_named_error(selections: Seq<(Seq<char>, Seq<Seq<char>>)>, i: int)
    requires
        0 <= i < selections.len(),
        named_selections(selections.subrange(0, i + 1)) is Err,
    ensures
        named_selections(selections) == named_selections(selections.subrange(0, i + 1)),
    decreases selections.len(),
{
    if i + 1 == selections.len() {
        assert(selections.subrange(0, i + 1) =~= selections);
    } else {
        let rest = selections.drop_last();
        assert(rest.subrange(0, i + 1) =~= selections.subrange(0, i + 1));
        lemma_named_error(rest, i);
    }
}

proof fn lemma_promoted_error(
    fs: Fs,
    lane: Seq<char>,
    selections: Seq<(Seq<char>, Seq<Seq<char>>)>,
    i: int,
)
    requires
        0 <= i < selections.len(),
        promoted_files(fs, lane, selections.subrange(0, i + 1)) is Err,
    ensures
        promoted_files(fs, lane, selections) == promoted_files(
            fs,
            lane,
            selections.subrange(0, i + 1),
        ),
    decreases selections.len(),
{
    if i + 1 == selections.len() {
        assert(selections.subrange(0, i + 1) =~= selections);
    } else {
        let rest = selections.drop_last();
        assert(rest.subrange(0, i + 1) =~= selections.subrange(0, i + 1));
        lemma_promoted_error(fs, lane, rest, i);
    }
}

fn name_selections(selections: &Vec<PathOps>) -> (r: Result<Vec<String>, LaneFsError>)
    ensures
        match r {
            Ok(paths) => {
                &&& paths@.len() == selections@.len()
                &&& named_selections(sorting::views(selections@)) is Ok
                &&& named_selections(sorting::views(selections@))->Ok_0 =~= Seq::new(
                    paths@.len(),
                    |i: int| (paths@[i]@, text::texts(selections@[i].ops@)),
                )
            },
            Err(error) => named_selections(sorting::views(selections@)) == Err::<
                Seq<(Seq<char>, Seq<Seq<char>>)>,
                LaneFsErrorView,
            >(error@),
        },
{
    let ghost all = sorting::views(selections@);
    let mut paths: Vec<String> = Vec::new();
    let mut i: usize = 0;
    assert(all.subrange(0, 0) =~= Seq::empty());
    while i < selections.len()
        invariant
            i <= selections@.len(),
            all == sorting::views(selections@),
            paths@.len() == i,
            named_selections(all.subrange(0, i as int)) is Ok,
            named_selections(all.subrange(0, i as int))->Ok_0 =~= Seq::new(
                i as nat,
                |k: int| (paths@[k]@, text::texts(selections@[k].ops@)),
            ),
        decreases selections@.len() - i,
    {
        proof {
            assert(all.subrange(0, i + 1).drop_last() =~= all.subrange(0, i as int));
            assert(all.subrange(0, i + 1).last() == selections@[i as int]@);
        }
        match normalize_repo_path(selections[i].path.as_str()) {
            Err(error) => {
                proof {
                    lemma_named_error(all, i as int);
                }
                return Err(error);
            },
            Ok(path) => paths.push(path),
        }
        i = i + 1;
    }
    assert(all.subrange(0, i as int) =~= all);
    Ok(paths)
}

impl LaneFs {
    /// Prepares the promotion of selected operations of a lane. Nothing changes until
    /// [`Self::commit`].
    pub fn promote_ops_files(&self, lane: &str, selections: &Vec<PathOps>) -> (r: Result<
        Promoted,
        LaneFsError,
    >)
        requires
            self.wf(),
        ensures
            promoted_view(r) == fs_promote(self@, lane@, sorting::views(selections@)),
            r matches Ok(promoted) ==> promoted.repo.wf(),
            r matches Ok(promoted) ==> (paths_differ(
                named_selections(sorting::views(selections@))->Ok_0,
            ) ==> rests_once_committed(
                self@,
                sorting::views(promoted.files@),
                promoted.repo@,
            )),
    {
        let paths = match name_selections(selections) {
            Err(error) => {
                return Err(error);
            },
            Ok(paths) => paths,
        };
        let ghost named = named_selections(sorting::views(selections@))->Ok_0;
        let mut draft = self.repo().copy();
        let mut files: Vec<PromotedFile> = Vec::new();
        let mut i: usize = 0;
        assert(named.subrange(0, 0) =~= Seq::empty());
        assert(sorting::views(files@) =~= Seq::empty());
        while i < paths.len()
            invariant
                i <= paths@.len() == selections@.len(),
                self.wf(),
                draft.wf(),
                named_selections(sorting::views(selections@)) == Ok::<
                    Seq<(Seq<char>, Seq<Seq<char>>)>,
                    LaneFsErrorView,
                >(named),
                named =~= Seq::new(
                    paths@.len(),
                    |k: int| (paths@[k]@, text::texts(selections@[k].ops@)),
                ),
                promoted_files(self@, lane@, named.subrange(0, i as int)) == Ok::<
                    (Seq<(Seq<char>, Option<Seq<u8>>)>, Repo),
                    LaneFsErrorView,
                >((sorting::views(files@), draft@)),
                files@.len() == i,
                forall|j: int| 0 <= j < i ==> (#[trigger] sorting::views(files@)[j]).0 == named[j].0,
                paths_differ(named) ==> rests_once_committed(
                    self@,
                    sorting::views(files@),
                    draft@,
                ),
            decreases paths@.len() - i,
        {
            let path = &paths[i];
            let ghost before = sorting::views(files@);
            let ghost was = draft@;
            proof {
                assert(named.subrange(0, i + 1).drop_last() =~= named.subrange(0, i as int));
                assert(named.subrange(0, i + 1).last() == (
                    path@,
                    text::texts(selections@[i as int].ops@),
                ));
            }
            let base = self.base_file(path.as_str());
            match draft.promote_ops_path(path.as_str(), lane, base, &selections[i].ops) {
                Err(error) => {
                    proof {
                        lemma_promoted_error(self@, lane@, named, i as int);
                    }
                    return Err(LaneFsError::Lane(error));
                },
                Ok(bytes) => {
                    let ghost shown = lane_file::opt_vec(bytes);
                    files.push(PromotedFile { path: path.clone(), bytes });
                    proof {
                        assert(sorting::views(files@) =~= before.push((path@, shown)));
                        if paths_differ(named) {
                            assert forall|j: int| 0 <= j < before.len() implies (
                            #[trigger] before[j]).0 != path@ by {
                                assert(named[j].0 != named[i as int].0);
                            }
                            lemma_rests_once_committed(self@, before, was, draft@, path@, shown);
                        }
                    }
                },
            }
            i = i + 1;
        }
        assert(named.subrange(0, i as int) =~= named);
        Ok(Promoted { repo: draft, files })
    }

    /// Prepares the promotion of one operation of a lane with other bytes in its place. Nothing
    /// changes until [`Self::commit`].
    pub fn resolve_op_file(&self, lane: &str, path: &str, op_id: &str, replacement: Vec<u8>) -> (r:
        Result<Promoted, LaneFsError>)
        requires
            self.wf(),
            vfs::repo_path(path@) matches Ok(label) ==> self@.repo.files.contains_key(label)
                ==> promotion::ids_can_grow(self@.repo.files[label], lane@),
        ensures
            promoted_view(r) == fs_resolve(self@, lane@, path@, op_id@, replacement@),
            r matches Ok(promoted) ==> promoted.repo.wf(),
            r matches Ok(promoted) ==> rests_once_committed(
                self@,
                sorting::views(promoted.files@),
                promoted.repo@,
            ),
    {
        let path = match normalize_repo_path(path) {
            Err(error) => {
                return Err(error);
            },
            Ok(path) => path,
        };
        let mut draft = self.repo().copy();
        let base = self.base_file(path.as_str());
        match draft.resolve_op_path(path.as_str(), lane, base, op_id, replacement) {
            Err(error) => Err(LaneFsError::Lane(error)),
            Ok(bytes) => {
                let ghost shown = (path@, lane_file::opt_vec(bytes));
                let mut files: Vec<PromotedFile> = Vec::new();
                files.push(PromotedFile { path, bytes });
                proof {
                    let none = Seq::<(Seq<char>, Option<Seq<u8>>)>::empty();
                    assert(sorting::views(files@) =~= none.push(shown));
                    assert(none.push(shown) =~= seq![shown]);
                    lemma_rests_once_committed(self@, none, self@.repo, draft@, shown.0, shown.1);
                }
                Ok(Promoted { repo: draft, files })
            },
        }
    }

    /// Takes over a promotion once its files have been written.
    pub fn commit(&mut self, promoted: Promoted)
        requires
            old(self).wf(),
            promoted.repo.wf(),
        ensures
            final(self).wf(),
            final(self)@ == (Fs {
                repo: promoted.repo@,
                files: files_after(old(self)@.files, sorting::views(promoted.files@)),
            }),
    {
        let ghost all = sorting::views(promoted.files@);
        let ghost start = self@.files;
        let mut i: usize = 0;
        let files = promoted.files;
        assert(all.subrange(0, 0) =~= Seq::empty());
        while i < files.len()
            invariant
                i <= files@.len(),
                self.wf(),
                all == sorting::views(files@),
                self@.files == files_after(start, all.subrange(0, i as int)),
            decreases files@.len() - i,
        {
            proof {
                assert(all.subrange(0, i + 1).drop_last() =~= all.subrange(0, i as int));
                assert(all.subrange(0, i + 1).last() == files@[i as int]@);
            }
            match &files[i].bytes {
                Some(bytes) => self.set_base_file(
                    files[i].path.as_str(),
                    Some(vstd::slice::slice_to_vec(bytes.as_slice())),
                ),
                None => self.set_base_file(files[i].path.as_str(), None),
            }
            i = i + 1;
        }
        assert(all.subrange(0, i as int) =~= all);
        self.set_repo(promoted.repo);
    }
}

/// What carries out a promotion on disk: first the removals, then the writes.
#[derive(Debug, PartialEq, Eq)]
pub struct CommitSteps {
    pub removes: Vec<Removal>,
    pub writes: Vec<FileWrite>,
}

/// The paths that a promotion removes.
pub open spec fn removed_paths(files: Seq<(Seq<char>, Option<Seq<u8>>)>) -> Seq<Seq<char>>
    decreases files.len(),
{
    if files.len() == 0 {
        Seq::empty()
    } else {
        let rest = removed_paths(files.drop_last());
        match files.last().1 {
            None => rest.push(files.last().0),
            Some(_) => rest,
        }
    }
}

/// The files that a promotion writes.
pub open spec fn written_files(files: Seq<(Seq<char>, Option<Seq<u8>>)>) -> Seq<
    (Seq<char>, Seq<u8>),
>
    decreases files.len(),
{
    if files.len() == 0 {
        Seq::empty()
    } else {
        let rest = written_files(files.drop_last());
        match files.last().1 {
            None => rest,
            Some(bytes) => rest.push((files.last().0, bytes)),
        }
    }
}

/// The order in which a promotion is carried out: files are removed from the deepest path up, so
/// that nothing is in the way, and written from the shallowest path down.
pub fn commit_steps(files: &Vec<PromotedFile>) -> (r: CommitSteps)
    ensures
        sorting::views(r.removes@) == sorting::ordered::<Removal>(
            removed_paths(sorting::views(files@)),
        ),
        sorting::views(r.writes@) == sorting::ordered::<FileWrite>(
            written_files(sorting::views(files@)),
        ),
{
    let ghost all = sorting::views(files@);
    let mut removes: Vec<Removal> = Vec::new();
    let mut writes: Vec<FileWrite> = Vec::new();
    let mut i: usize = 0;
    proof {
        assert(all.subrange(0, 0) =~= Seq::empty());
        assert(sorting::views(removes@) =~= Seq::empty());
        assert(sorting::views(writes@) =~= Seq::empty());
    }
    while i < files.len()
        invariant
            i <= files@.len(),
            all == sorting::views(files@),
            sorting::views(removes@) == removed_paths(all.subrange(0, i as int)),
            sorting::views(writes@) == written_files(all.subrange(0, i as int)),
        decreases files@.len() - i,
    {
        let file = &files[i];
        let ghost removes0 = sorting::views(removes@);
        let ghost writes0 = sorting::views(writes@);
        proof {
            assert(all.subrange(0, i + 1).drop_last() =~= all.subrange(0, i as int));
            assert(all.subrange(0, i + 1).last() == file@);
        }
        match &file.bytes {
            None => {
                removes.push(Removal { path: file.path.clone() });
                assert(sorting::views(removes@) =~= removes0.push(file.path@));
            },
            Some(bytes) => {
                writes.push(
                    FileWrite {
                        path: file.path.clone(),
                        bytes: vstd::slice::slice_to_vec(bytes.as_slice()),
                    },
                );
                assert(sorting::views(writes@) =~= writes0.push((file.path@, bytes@)));
            },
        }
        i = i + 1;
    }
    assert(all.subrange(0, i as int) =~= all);
    CommitSteps { removes: sort_list(removes), writes: sort_list(writes) }
}

/// The paths that must be put back where a promotion fails: the promoted ones, and those above
/// them that are not directories.
pub open spec fn at_stake(paths: Seq<Seq<char>>, directories: Set<Seq<char>>, path: Seq<char>) -> bool {
    paths.contains(path) || (!directories.contains(path) && exists|i: int|
        0 <= i < paths.len() && ancestors_of(#[trigger] paths[i]).contains(path))
}

/// Keeps the path unless the list holds it.
fn push_unique(paths: &mut Vec<String>, path: String)
    ensures
        text::texts(final(paths)@) == if text::texts(old(paths)@).contains(path@) {
            text::texts(old(paths)@)
        } else {
            text::texts(old(paths)@).push(path@)
        },
{
    if !contains_text(paths, path.as_str()) {
        let ghost label = path@;
        paths.push(path);
        assert(text::texts(paths@) =~= text::texts(old(paths)@).push(label));
    }
}

/// The paths that must be put back where a promotion of `paths` fails, the deepest first, each
/// once. `directories` holds the paths that are directories now.
pub fn transaction_paths(paths: &Vec<String>, directories: &TextMap<()>) -> (r: Vec<Removal>)
    requires
        directories.wf(),
    ensures
        forall|k: Seq<char>| #[trigger]
            sorting::views(r@).contains(k) <==> at_stake(
                text::texts(paths@),
                directories@.dom(),
                k,
            ),
        forall|i: int, j: int|
            0 <= i < j < r@.len() ==> shallower((#[trigger] r@[j])@, (#[trigger] r@[i])@),
{
    let ghost all = text::texts(paths@);
    let ghost dirs = directories@.dom();
    let mut found: Vec<String> = Vec::new();
    let mut i: usize = 0;
    assert(text::texts(found@) =~= Seq::empty());
    assert(all.subrange(0, 0) =~= Seq::empty());
    while i < paths.len()
        invariant
            i <= paths@.len(),
            directories.wf(),
            all == text::texts(paths@),
            dirs == directories@.dom(),
            text::texts(found@).no_duplicates(),
            forall|k: Seq<char>| #[trigger]
                text::texts(found@).contains(k) <==> at_stake(all.subrange(0, i as int), dirs, k),
        decreases paths@.len() - i,
    {
        let ghost before = text::texts(found@);
        push_unique(&mut found, paths[i].clone());
        let ancestors = ancestor_paths(paths[i].as_str());
        let ghost above = text::texts(ancestors@);
        proof {
            lemma_kept(before, text::texts(found@), all[i as int]);
        }
        let mut j: usize = 0;
        while j < ancestors.len()
            invariant
                i < paths@.len(),
                j <= ancestors@.len(),
                directories.wf(),
                dirs == directories@.dom(),
                above == text::texts(ancestors@),
                text::texts(found@).no_duplicates(),
                forall|k: Seq<char>| #[trigger]
                    text::texts(found@).contains(k) <==> (before.contains(k) || k == all[i as int]
                        || (!dirs.contains(k) && above.subrange(0, j as int).contains(k))),
            decreases ancestors@.len() - j,
        {
            let ancestor = &ancestors[j];
            let ghost inner = text::texts(found@);
            if !directories.contains_key(ancestor.as_str()) {
                push_unique(&mut found, ancestor.clone());
            }
            proof {
                lemma_kept(inner, text::texts(found@), ancestor@);
                let shorter = above.subrange(0, j as int);
                let longer = above.subrange(0, j + 1);
                assert(longer =~= shorter.push(ancestor@));
                assert forall|k: Seq<char>| #[trigger] longer.contains(k) <==> shorter.contains(k)
                    || k == ancestor@ by {
                    lemma_push_contains(shorter, ancestor@, k);
                }
            }
            j = j + 1;
        }
        proof {
            let shorter = all.subrange(0, i as int);
            let longer = all.subrange(0, i + 1);
            assert(longer =~= shorter.push(all[i as int]));
            assert(above.subrange(0, j as int) =~= above);
            assert forall|k: Seq<char>| #[trigger] text::texts(found@).contains(k) <==> at_stake(
                longer,
                dirs,
                k,
            ) by {
                lemma_push_contains(shorter, all[i as int], k);
                lemma_at_stake_push(shorter, dirs, all[i as int], k);
                assert(before.contains(k) <==> at_stake(shorter, dirs, k));
            }
        }
        i = i + 1;
    }
    assert(all.subrange(0, i as int) =~= all);
    let removals = as_removals(found);
    let sorted = sort_list(removals);
    proof {
        let list = text::texts(found@);
        let out = sorting::views(sorted@);
        sorting::law_ordered::<Removal>(list);
        sorting::lemma_ordered_contains::<Removal>(list);
        lemma_same_multiset_distinct(list, out);
        assert forall|i: int, j: int| 0 <= i < j < sorted@.len() implies shallower(
            (#[trigger] sorted@[j])@,
            (#[trigger] sorted@[i])@,
        ) by {
            assert(!Removal::before(out[j], out[i]));
            assert(out[i] != out[j]);
            lemma_shallower(out[j], out[i], out[i]);
        }
    }
    sorted
}

proof fn lemma_push_contains<A>(list: Seq<A>, x: A, k: A)
    ensures
        list.push(x).contains(k) <==> list.contains(k) || k == x,
{
    let longer = list.push(x);
    if list.contains(k) {
        let i = choose|i: int| 0 <= i < list.len() && list[i] == k;
        assert(longer[i] == k);
    }
    assert(longer[list.len() as int] == x);
}

/// What a list holds after a path has been kept once.
proof fn lemma_kept(before: Seq<Seq<char>>, after: Seq<Seq<char>>, path: Seq<char>)
    requires
        before.no_duplicates(),
        after == before || (!before.contains(path) && after == before.push(path)),
    ensures
        after.no_duplicates(),
        forall|k: Seq<char>| #[trigger]
            after.contains(k) <==> before.contains(k) || (k == path && after != before),
{
    if after != before {
        assert forall|k: Seq<char>| #[trigger] after.contains(k) <==> before.contains(k) || k == path by {
            lemma_push_contains(before, path, k);
        }
    }
}

proof fn lemma_at_stake_push(
    paths: Seq<Seq<char>>,
    directories: Set<Seq<char>>,
    path: Seq<char>,
    k: Seq<char>,
)
    ensures
        at_stake(paths.push(path), directories, k) <==> (at_stake(paths, directories, k) || k == path
            || (!directories.contains(k) && ancestors_of(path).contains(k))),
{
    let longer = paths.push(path);
    lemma_push_contains(paths, path, k);
    if exists|i: int| 0 <= i < longer.len() && ancestors_of(#[trigger] longer[i]).contains(k) {
        let i = choose|i: int| 0 <= i < longer.len() && ancestors_of(#[trigger] longer[i]).contains(k);
        if i < paths.len() {
            assert(ancestors_of(paths[i]).contains(k));
        }
    }
    if exists|i: int| 0 <= i < paths.len() && ancestors_of(#[trigger] paths[i]).contains(k) {
        let i = choose|i: int| 0 <= i < paths.len() && ancestors_of(#[trigger] paths[i]).contains(k);
        assert(ancestors_of(longer[i]).contains(k));
    }
    if ancestors_of(path).contains(k) {
        assert(ancestors_of(longer[paths.len() as int]).contains(k));
    }
}

/// Lists with the same values hold each of them as often.
proof fn lemma_same_multiset_distinct(a: Seq<Seq<char>>, b: Seq<Seq<char>>)
    requires
        a.no_duplicates(),
        a.to_multiset() == b.to_multiset(),
    ensures
        b.no_duplicates(),
{
    a.lemma_multiset_has_no_duplicates();
    b.lemma_multiset_has_no_duplicates_conv();
}

fn as_removals(paths: Vec<String>) -> (r: Vec<Removal>)
    ensures
        sorting::views(r@) == text::texts(paths@),
{
    let mut r: Vec<Removal> = Vec::new();
    let mut i: usize = 0;
    while i < paths.len()
        invariant
            i <= paths@.len(),
            r@.len() == i,
            forall|k: int| 0 <= k < i ==> (#[trigger] r@[k])@ == paths@[k]@,
        decreases paths@.len() - i,
    {
        r.push(Removal { path: paths[i].clone() });
        i = i + 1;
    }
    assert(sorting::views(r@) =~= text::texts(paths@));
    r
}

/// Whether a path is put back together with a directory above it.
pub open spec fn covered(path: Seq<char>, directories: Seq<Seq<char>>) -> bool {
    exists|i: int| 0 <= i < directories.len() && lies_below(path, #[trigger] directories[i])
}

/// Whether a path is put back together with a directory above it.
pub fn is_covered(path: &str, directories: &Vec<String>) -> (r: bool)
    ensures
        r == covered(path@, text::texts(directories@)),
{
    let ghost all = text::texts(directories@);
    let mut i: usize = 0;
    while i < directories.len()
        invariant
            i <= directories@.len(),
            all == text::texts(directories@),
            forall|k: int| 0 <= k < i ==> !lies_below(path@, #[trigger] all[k]),
        decreases directories@.len() - i,
    {
        if is_descendant_path(path, directories[i].as_str()) {
            assert(lies_below(path@, all[i as int]));
            return true;
        }
        i = i + 1;
    }
    false
}

/// Of the paths to be put back, those that no directory among them covers.
pub fn retained_paths(paths: &Vec<String>, directories: &Vec<String>) -> (r: Vec<String>)
    ensures
        text::texts(r@) == text::texts(paths@).filter(
            |path: Seq<char>| !covered(path, text::texts(directories@)),
        ),
{
    let ghost all = text::texts(paths@);
    let ghost keep = |path: Seq<char>| !covered(path, text::texts(directories@));
    let mut r: Vec<String> = Vec::new();
    let mut i: usize = 0;
    reveal(Seq::filter);
    assert(all.subrange(0, 0) =~= Seq::empty());
    assert(text::texts(r@) =~= Seq::empty());
    while i < paths.len()
        invariant
            i <= paths@.len(),
            all == text::texts(paths@),
            keep == (|path: Seq<char>| !covered(path, text::texts(directories@))),
            text::texts(r@) == all.subrange(0, i as int).filter(keep),
        decreases paths@.len() - i,
    {
        let ghost before = text::texts(r@);
        reveal(Seq::filter);
        assert(all.subrange(0, i + 1).drop_last() =~= all.subrange(0, i as int));
        assert(all.subrange(0, i + 1).last() == paths@[i as int]@);
        if !is_covered(paths[i].as_str(), directories) {
            r.push(paths[i].clone());
            assert(text::texts(r@) =~= before.push(paths@[i as int]@));
        }
        i = i + 1;
    }
    assert(all.subrange(0, i as int) =~= all);
    r
}

/// The message where neither a promotion nor its undoing succeeded.
pub fn rollback_failure(error: &LaneFsError, rollback_error: &str) -> (r: LaneFsError)
    ensures
        r@ == LaneFsErrorView::Io(
            "failed to commit promoted files: "@ + vfs::fs_error_message(error@)
                + "; rollback failed: "@ + rollback_error@,
        ),
{
    LaneFsError::Io(
        "failed to commit promoted files: ".to_owned().concat(error.message().as_str()).concat(
            "; rollback failed: ",
        ).concat(rollback_error),
    )
}

/// A promoted file is what the base holds afterwards, as long as it is not promoted twice.
pub proof fn law_commit_shows_promoted(
    files: Map<Seq<char>, Seq<u8>>,
    promoted: Seq<(Seq<char>, Option<Seq<u8>>)>,
    i: int,
)
    requires
        0 <= i < promoted.len(),
        forall|j: int| i < j < promoted.len() ==> (#[trigger] promoted[j]).0 != promoted[i].0,
    ensures
        vfs::base_at(files_after(files, promoted), promoted[i].0) == promoted[i].1,
    decreases promoted.len(),
{
    if i < promoted.len() - 1 {
        let rest = promoted.drop_last();
        assert(rest[i] == promoted[i]);
        assert forall|j: int| i < j < rest.len() implies (#[trigger] rest[j]).0 != rest[i].0 by {
            assert(promoted[j].0 != promoted[i].0);
        }
        law_commit_shows_promoted(files, rest, i);
        assert(promoted[promoted.len() - 1].0 != promoted[i].0);
    }
}

/// A promotion leaves the files at other paths as they are.
pub proof fn law_commit_is_local(
    files: Map<Seq<char>, Seq<u8>>,
    promoted: Seq<(Seq<char>, Option<Seq<u8>>)>,
    path: Seq<char>,
)
    requires
        forall|j: int| 0 <= j < promoted.len() ==> (#[trigger] promoted[j]).0 != path,
    ensures
        vfs::base_at(files_after(files, promoted), path) == vfs::base_at(files, path),
    decreases promoted.len(),
{
    if promoted.len() > 0 {
        let rest = promoted.drop_last();
        assert forall|j: int| 0 <= j < rest.len() implies (#[trigger] rest[j]).0 != path by {
            assert(promoted[j].0 != path);
        }
        law_commit_is_local(files, rest, path);
        assert(promoted[promoted.len() - 1].0 != path);
    }
}

} // verus!
