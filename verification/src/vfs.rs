//! Lanes seen as file trees over the base files of a repo.
use vstd::prelude::*;

use crate::bytes::bytes_eq;
use crate::lane_file;
use crate::lane_file::owned_bytes;
use crate::repo;
use crate::repo::{LaneRepo, Repo};
use crate::sorting;
use crate::text;
use crate::text::{split, strip_prefix};
use crate::text_map;
use crate::text_map::TextMap;
use crate::types;
use crate::types::{
    FilePath, LaneError, LaneErrorView, LaneOpDetail, LaneOpSummary, OpDetailView, OpSummaryView,
};
use crate::upkeep;

verus! {

/// The ways in which work on a lane's file tree fails.
#[derive(Debug, PartialEq, Eq)]
pub enum LaneFsError {
    BadPath(String),
    Io(String),
    Lane(LaneError),
}

/// A [`LaneFsError`] with its texts as character sequences.
pub enum LaneFsErrorView {
    BadPath(Seq<char>),
    Io(Seq<char>),
    Lane(LaneErrorView),
}

impl View for LaneFsError {
    type V = LaneFsErrorView;

    open spec fn view(&self) -> LaneFsErrorView {
        match self {
            LaneFsError::BadPath(message) => LaneFsErrorView::BadPath(message@),
            LaneFsError::Io(message) => LaneFsErrorView::Io(message@),
            LaneFsError::Lane(error) => LaneFsErrorView::Lane(error@),
        }
    }
}

/// What is told to users of an error.
pub open spec fn fs_error_message(error: LaneFsErrorView) -> Seq<char> {
    match error {
        LaneFsErrorView::BadPath(message) => message,
        LaneFsErrorView::Io(message) => message,
        LaneFsErrorView::Lane(error) => types::lane_error_debug(error),
    }
}

impl LaneFsError {
    /// What is told to users of the error.
    pub fn message(&self) -> (r: String)
        ensures
            r@ == fs_error_message(self@),
    {
        match self {
            LaneFsError::BadPath(message) => message.clone(),
            LaneFsError::Io(message) => message.clone(),
            LaneFsError::Lane(error) => error.debug_label(),
        }
    }
}

/// A name in a directory.
#[derive(Debug, PartialEq, Eq)]
pub struct DirEntry {
    pub name: String,
    pub kind: DirEntryKind,
}

/// What a name in a directory stands for.
#[derive(Clone, Copy, Debug, PartialEq, Eq, Structural)]
pub enum DirEntryKind {
    Directory,
    File,
}

impl View for DirEntry {
    type V = (Seq<char>, DirEntryKind);

    open spec fn view(&self) -> (Seq<char>, DirEntryKind) {
        (self.name@, self.kind)
    }
}

/// How a lane's file differs from the base.
#[derive(Clone, Copy, Debug, PartialEq, Eq, Structural)]
pub enum LaneFileChangeStatus {
    Created,
    Modified,
    Deleted,
}

/// A file in which a lane differs from the base.
#[derive(Debug, PartialEq, Eq)]
pub struct LaneFileChange {
    pub path: String,
    pub status: LaneFileChangeStatus,
    pub base_size: Option<usize>,
    pub lane_size: Option<usize>,
    pub ops: Vec<LaneOpSummary>,
    pub base_bytes: Option<Vec<u8>>,
    pub lane_bytes: Option<Vec<u8>>,
}

/// A [`LaneFileChange`] as a mathematical value.
#[verifier::ext_equal]
pub struct ChangeView {
    pub path: Seq<char>,
    pub status: LaneFileChangeStatus,
    pub base_size: Option<nat>,
    pub lane_size: Option<nat>,
    pub ops: Seq<OpSummaryView>,
    pub base_bytes: Option<Seq<u8>>,
    pub lane_bytes: Option<Seq<u8>>,
}

/// An optional size as a mathematical value.
pub open spec fn opt_size(size: Option<usize>) -> Option<nat> {
    match size {
        Some(size) => Some(size as nat),
        None => None,
    }
}

/// The size of an optional byte string.
pub open spec fn size_of(bytes: Option<Seq<u8>>) -> Option<nat> {
    match bytes {
        Some(bytes) => Some(bytes.len()),
        None => None,
    }
}

impl View for LaneFileChange {
    type V = ChangeView;

    open spec fn view(&self) -> ChangeView {
        ChangeView {
            path: self.path@,
            status: self.status,
            base_size: opt_size(self.base_size),
            lane_size: opt_size(self.lane_size),
            ops: types::summary_views(self.ops@),
            base_bytes: lane_file::opt_vec(self.base_bytes),
            lane_bytes: lane_file::opt_vec(self.lane_bytes),
        }
    }
}

/// A copy of an optional byte string.
pub fn copy_opt_bytes(bytes: &Option<Vec<u8>>) -> (r: Option<Vec<u8>>)
    ensures
        lane_file::opt_vec(r) == lane_file::opt_vec(*bytes),
{
    match bytes {
        Some(bytes) => Some(vstd::slice::slice_to_vec(bytes.as_slice())),
        None => None,
    }
}

fn opt_len(bytes: &Option<Vec<u8>>) -> (r: Option<usize>)
    ensures
        opt_size(r) == size_of(lane_file::opt_vec(*bytes)),
{
    match bytes {
        Some(bytes) => Some(bytes.len()),
        None => None,
    }
}

/// The base files that have been read from a repo.
#[derive(Debug, PartialEq, Eq)]
pub struct FileWorktree {
    files: TextMap<Vec<u8>>,
}

impl View for FileWorktree {
    type V = Map<Seq<char>, Seq<u8>>;

    closed spec fn view(&self) -> Map<Seq<char>, Seq<u8>> {
        self.files@.map_values(|bytes: Vec<u8>| bytes@)
    }
}

/// The base file at a path, if there is one.
pub open spec fn base_at(files: Map<Seq<char>, Seq<u8>>, path: Seq<char>) -> Option<Seq<u8>> {
    if files.contains_key(path) {
        Some(files[path])
    } else {
        None
    }
}

impl FileWorktree {
    /// The invariant: keys in order.
    pub closed spec fn wf(&self) -> bool {
        self.files.wf()
    }

    /// No files.
    pub fn new() -> (r: Self)
        ensures
            r.wf(),
            r@ == Map::<Seq<char>, Seq<u8>>::empty(),
    {
        let r = FileWorktree { files: TextMap::new() };
        assert(r@ =~= Map::empty());
        r
    }

    /// The bytes of a file.
    pub fn read_file(&self, path: &str) -> (r: Option<&[u8]>)
        requires
            self.wf(),
        ensures
            lane_file::opt_slice(r) == base_at(self@, path@),
    {
        match self.files.get(path) {
            Some(bytes) => Some(bytes.as_slice()),
            None => None,
        }
    }

    /// Sets the bytes of a file.
    pub fn write_file(&mut self, path: &str, bytes: Vec<u8>)
        requires
            old(self).wf(),
        ensures
            final(self).wf(),
            final(self)@ == old(self)@.insert(path@, bytes@),
    {
        let ghost kept = bytes@;
        let _ = self.files.insert(path.to_owned(), bytes);
        assert(self@ =~= old(self)@.insert(path@, kept));
    }

    /// A copy of the files.
    pub fn copy(&self) -> (r: Self)
        requires
            self.wf(),
        ensures
            r.wf(),
            r@ == self@,
    {
        let mut files: TextMap<Vec<u8>> = TextMap::new();
        let mut i: usize = 0;
        proof {
            self.files.lemma_wf();
        }
        while i < self.files.len()
            invariant
                i <= self.files.pairs().len(),
                self.files.wf(),
                files.wf(),
                forall|k: Seq<char>| #[trigger]
                    files@.contains_key(k) ==> self.files@.contains_key(k) && files@[k]@
                        == self.files@[k]@,
                forall|m: int|
                    0 <= m < i ==> files@.contains_key((#[trigger] self.files.pairs()[m]).0),
            decreases self.files.pairs().len() - i,
        {
            proof {
                self.files.lemma_wf();
                assert(self.files@.contains_key(self.files.pairs()[i as int].0));
            }
            let bytes = vstd::slice::slice_to_vec(self.files.value_at(i).as_slice());
            let _ = files.insert(self.files.key_at(i).to_owned(), bytes);
            i = i + 1;
        }
        let copy = FileWorktree { files };
        proof {
            self.files.lemma_wf();
            assert forall|k: Seq<char>| #[trigger] self.files@.contains_key(k) implies files@.contains_key(
                k,
            ) by {
                let m = choose|m: int|
                    0 <= m < self.files.pairs().len() && (#[trigger] self.files.pairs()[m]).0 == k;
                assert(files@.contains_key(self.files.pairs()[m].0));
            }
            assert(copy@ =~= self@);
        }
        copy
    }

    /// Forgets a file.
    pub fn remove_file(&mut self, path: &str)
        requires
            old(self).wf(),
        ensures
            final(self).wf(),
            final(self)@ == old(self)@.remove(path@),
    {
        let _ = self.files.remove(path);
        assert(self@ =~= old(self)@.remove(path@));
    }
}

/// A repo with its base files.
#[derive(Debug, PartialEq, Eq)]
pub struct LaneFs {
    repo: LaneRepo,
    worktree: FileWorktree,
}

/// A [`LaneFs`] as a mathematical value.
#[verifier::ext_equal]
pub struct Fs {
    pub repo: Repo,
    pub files: Map<Seq<char>, Seq<u8>>,
}

impl View for LaneFs {
    type V = Fs;

    closed spec fn view(&self) -> Fs {
        Fs { repo: self.repo@, files: self.worktree@ }
    }
}

/// The path that a text names in the repo, or why it names none.
pub open spec fn repo_path(raw: Seq<char>) -> Result<Seq<char>, LaneFsErrorView> {
    match types::normalized_label(raw) {
        Err(reason) => Err(LaneFsErrorView::BadPath(reason)),
        Ok(label) => if label.len() == 0 {
            Err(LaneFsErrorView::BadPath("missing path"@))
        } else {
            Ok(label)
        },
    }
}

/// The path that a text names in the repo.
pub fn normalize_repo_path(path: &str) -> (r: Result<String, LaneFsError>)
    ensures
        match r {
            Ok(label) => repo_path(path@) == Ok::<Seq<char>, LaneFsErrorView>(label@),
            Err(error) => repo_path(path@) == Err::<Seq<char>, LaneFsErrorView>(error@),
        },
{
    match FilePath::normalize_label(path) {
        Err(reason) => Err(LaneFsError::BadPath(reason)),
        Ok(label) => if label.as_str().is_empty() {
            Err(LaneFsError::BadPath("missing path".to_owned()))
        } else {
            Ok(label)
        },
    }
}

/// The directory that a text names in the repo; the root has the empty path.
pub fn normalize_repo_dir(path: &str) -> (r: Result<String, LaneFsError>)
    ensures
        match r {
            Ok(label) => types::normalized_label(path@) == Ok::<Seq<char>, Seq<char>>(label@),
            Err(error) => types::normalized_label(path@) is Err && error@
                == LaneFsErrorView::BadPath(types::normalized_label(path@)->Err_0),
        },
{
    match FilePath::normalize_label(path) {
        Err(reason) => Err(LaneFsError::BadPath(reason)),
        Ok(label) => Ok(label),
    }
}

/// A lane error as an error of the file tree.
pub open spec fn lane_result<T>(r: Result<T, LaneErrorView>) -> Result<T, LaneFsErrorView> {
    match r {
        Ok(value) => Ok(value),
        Err(error) => Err(LaneFsErrorView::Lane(error)),
    }
}

/// What a lane sees at a path.
pub open spec fn fs_read(fs: Fs, lane: Seq<char>, raw: Seq<char>) -> Result<
    Option<Seq<u8>>,
    LaneFsErrorView,
> {
    match repo_path(raw) {
        Err(error) => Err(error),
        Ok(path) => lane_result(repo::repo_read(fs.repo, path, lane, base_at(fs.files, path))),
    }
}

/// The base file at each path.
pub open spec fn bases_of(files: Map<Seq<char>, Seq<u8>>) -> Map<Seq<char>, Option<Seq<u8>>> {
    Map::new(|path: Seq<char>| true, |path: Seq<char>| base_at(files, path))
}

/// The operations of all lanes are as lanes write them, and all overlays rest on the base files.
pub open spec fn fs_rests(fs: Fs) -> bool {
    upkeep::repo_tidy(fs.repo) && upkeep::rests_on(fs.repo, bases_of(fs.files))
}

/// Where overlays rest on the base files, every lane shows something at every path.
pub proof fn law_resting_tree_is_read(fs: Fs, lane: Seq<char>, raw: Seq<char>)
    requires
        fs_rests(fs),
        fs.repo.lanes.contains(lane),
        repo_path(raw) is Ok,
    ensures
        fs_read(fs, lane, raw) is Ok,
{
    let path = repo_path(raw)->Ok_0;
    if fs.repo.files.contains_key(path) {
        assert(bases_of(fs.files)[path] == base_at(fs.files, path));
    }
}

/// A change at one path over the base files that are there leaves overlays that rest on them.
proof fn lemma_still_rests(files: Map<Seq<char>, Seq<u8>>, before: Repo, after: Repo, path: Seq<char>)
    requires
        upkeep::rests_after(before, after, path, base_at(files, path), base_at(files, path)),
        upkeep::rests_on(before, bases_of(files)),
    ensures
        upkeep::rests_on(after, bases_of(files)),
{
    let bases = bases_of(files);
    assert(bases[path] == base_at(files, path));
    assert(bases.insert(path, base_at(files, path)) =~= bases);
}

/// How content differs from the base.
pub open spec fn change_status(base: Option<Seq<u8>>, bytes: Option<Seq<u8>>) -> LaneFileChangeStatus {
    if base is None {
        LaneFileChangeStatus::Created
    } else if bytes is None {
        LaneFileChangeStatus::Deleted
    } else {
        LaneFileChangeStatus::Modified
    }
}

/// How a lane differs from the base at a path: not at all, or by its operations there.
pub open spec fn fs_change(fs: Fs, lane: Seq<char>, raw: Seq<char>) -> Result<
    Option<ChangeView>,
    LaneFsErrorView,
> {
    match repo_path(raw) {
        Err(error) => Err(error),
        Ok(path) => {
            let base = base_at(fs.files, path);
            match repo::repo_read(fs.repo, path, lane, base) {
                Err(error) => Err(LaneFsErrorView::Lane(error)),
                Ok(bytes) => if bytes == base {
                    Ok(None)
                } else {
                    match repo::repo_change_ops(fs.repo, path, lane, base) {
                        Err(error) => Err(LaneFsErrorView::Lane(error)),
                        Ok(ops) => Ok(
                            Some(
                                ChangeView {
                                    path,
                                    status: change_status(base, bytes),
                                    base_size: size_of(base),
                                    lane_size: size_of(bytes),
                                    ops,
                                    base_bytes: base,
                                    lane_bytes: bytes,
                                },
                            ),
                        ),
                    }
                },
            }
        },
    }
}

/// The view of a result that may carry a change.
pub open spec fn change_result(r: Result<Option<LaneFileChange>, LaneFsError>) -> Result<
    Option<ChangeView>,
    LaneFsErrorView,
> {
    match r {
        Ok(Some(change)) => Ok(Some(change@)),
        Ok(None) => Ok(None),
        Err(error) => Err(error@),
    }
}

/// The view of a result that may carry bytes.
pub open spec fn read_result(r: Result<Option<Vec<u8>>, LaneFsError>) -> Result<
    Option<Seq<u8>>,
    LaneFsErrorView,
> {
    match r {
        Ok(bytes) => Ok(lane_file::opt_vec(bytes)),
        Err(error) => Err(error@),
    }
}

/// One operation of a lane at a path, or why there is none.
pub open spec fn fs_op_detail(fs: Fs, lane: Seq<char>, raw: Seq<char>, name: Seq<char>) -> Result<
    OpDetailView,
    LaneFsErrorView,
> {
    match repo_path(raw) {
        Err(error) => Err(error),
        Ok(path) => lane_result(
            repo::repo_op_detail(fs.repo, path, lane, base_at(fs.files, path), name),
        ),
    }
}

/// The file tree after a lane has been given content at a path, or why it cannot be.
pub open spec fn fs_replace(
    fs: Fs,
    lane: Seq<char>,
    raw: Seq<char>,
    content: Option<Seq<u8>>,
) -> Result<Fs, LaneFsErrorView> {
    match repo_path(raw) {
        Err(error) => Err(error),
        Ok(path) => match repo::repo_replace(
            fs.repo,
            path,
            lane,
            base_at(fs.files, path),
            content,
        ) {
            Err(error) => Err(LaneFsErrorView::Lane(error)),
            Ok(repo) => Ok(Fs { repo, ..fs }),
        },
    }
}

/// The view of a result with the file tree that it leaves.
pub open spec fn fs_result(r: Result<(), LaneFsError>, fs: Fs) -> Result<Fs, LaneFsErrorView> {
    match r {
        Ok(()) => Ok(fs),
        Err(error) => Err(error@),
    }
}

fn same_bytes(a: &Option<Vec<u8>>, b: Option<&[u8]>) -> (r: bool)
    ensures
        r == (lane_file::opt_vec(*a) == lane_file::opt_slice(b)),
{
    match (a, b) {
        (Some(a), Some(b)) => bytes_eq(a.as_slice(), b),
        (None, None) => true,
        _ => false,
    }
}

impl LaneFs {
    /// The invariants of the parts.
    pub closed spec fn wf(&self) -> bool {
        self.repo.wf() && self.worktree.wf()
    }

    /// What the invariant says of the mathematical value.
    pub proof fn lemma_wf(&self)
        requires
            self.wf(),
        ensures
            repo::repo_ok(self@.repo),
    {
        self.repo.lemma_wf();
    }

    /// A repo with its base files.
    pub fn new(repo: LaneRepo, worktree: FileWorktree) -> (r: Self)
        requires
            repo.wf(),
            worktree.wf(),
        ensures
            r.wf(),
            r@ == (Fs { repo: repo@, files: worktree@ }),
    {
        LaneFs { repo, worktree }
    }

    /// The repo.
    pub fn repo(&self) -> (r: &LaneRepo)
        requires
            self.wf(),
        ensures
            r.wf(),
            r@ == self@.repo,
    {
        &self.repo
    }

    /// A copy of the repo with its base files.
    pub fn copy(&self) -> (r: Self)
        requires
            self.wf(),
        ensures
            r.wf(),
            r@ == self@,
    {
        LaneFs { repo: self.repo.copy(), worktree: self.worktree.copy() }
    }

    /// The base file at a path, if there is one.
    pub fn base_file(&self, path: &str) -> (r: Option<&[u8]>)
        requires
            self.wf(),
        ensures
            lane_file::opt_slice(r) == base_at(self@.files, path@),
    {
        self.worktree.read_file(path)
    }

    /// Sets or removes the base file at a path.
    pub fn set_base_file(&mut self, path: &str, bytes: Option<Vec<u8>>)
        requires
            old(self).wf(),
        ensures
            final(self).wf(),
            final(self)@.repo == old(self)@.repo,
            final(self)@.files == match bytes {
                Some(bytes) => old(self)@.files.insert(path@, bytes@),
                None => old(self)@.files.remove(path@),
            },
    {
        match bytes {
            Some(bytes) => self.worktree.write_file(path, bytes),
            None => self.worktree.remove_file(path),
        }
    }

    /// Puts another repo in place.
    pub fn set_repo(&mut self, repo: LaneRepo)
        requires
            old(self).wf(),
            repo.wf(),
        ensures
            final(self).wf(),
            final(self)@ == (Fs { repo: repo@, ..old(self)@ }),
    {
        self.repo = repo;
    }

    /// The paths at which a lane has an overlay, in order.
    pub fn changed_paths(&self, lane: &str) -> (r: Result<Vec<String>, LaneFsError>)
        requires
            self.wf(),
        ensures
            match r {
                Ok(paths) => self@.repo.lanes.contains(lane@) && text::texts(paths@)
                    == repo::overlay_listing(self@.repo, lane@),
                Err(error) => !self@.repo.lanes.contains(lane@) && error@ == LaneFsErrorView::Lane(
                    LaneErrorView::LaneMissing(lane@),
                ),
            },
    {
        match self.repo.overlay_paths(lane) {
            Err(error) => Err(LaneFsError::Lane(error)),
            Ok(found) => {
                let mut paths: Vec<String> = Vec::new();
                let mut i: usize = 0;
                while i < found.len()
                    invariant
                        i <= found@.len(),
                        paths@.len() == i,
                        forall|k: int| 0 <= k < i ==> (#[trigger] paths@[k])@ == found@[k]@,
                    decreases found@.len() - i,
                {
                    paths.push(found[i].to_owned());
                    i = i + 1;
                }
                assert(text::texts(paths@) =~= text::strs(found@));
                Ok(paths)
            },
        }
    }

    /// How a lane differs from the base at a path.
    pub fn change_for_path(&self, lane: &str, path: &str) -> (r: Result<
        Option<LaneFileChange>,
        LaneFsError,
    >)
        requires
            self.wf(),
        ensures
            change_result(r) == fs_change(self@, lane@, path@),
    {
        let path = match normalize_repo_path(path) {
            Err(error) => {
                return Err(error);
            },
            Ok(path) => path,
        };
        let base = self.worktree.read_file(path.as_str());
        let bytes = match self.repo.read_path(path.as_str(), lane, base) {
            Err(error) => {
                return Err(LaneFsError::Lane(error));
            },
            Ok(bytes) => bytes,
        };
        if same_bytes(&bytes, base) {
            return Ok(None);
        }
        let ops = match self.repo.change_ops(path.as_str(), lane, base) {
            Err(error) => {
                return Err(LaneFsError::Lane(error));
            },
            Ok(ops) => ops,
        };
        let status = match (base, &bytes) {
            (None, _) => LaneFileChangeStatus::Created,
            (Some(_), None) => LaneFileChangeStatus::Deleted,
            (Some(_), Some(_)) => LaneFileChangeStatus::Modified,
        };
        let base_bytes = owned_bytes(base);
        Ok(
            Some(
                LaneFileChange {
                    path,
                    status,
                    base_size: opt_len(&base_bytes),
                    lane_size: opt_len(&bytes),
                    ops,
                    base_bytes,
                    lane_bytes: bytes,
                },
            ),
        )
    }

    /// One operation of a lane with its bytes.
    pub fn op_detail(&self, lane: &str, path: &str, op_id: &str) -> (r: Result<
        LaneOpDetail,
        LaneFsError,
    >)
        requires
            self.wf(),
        ensures
            match r {
                Ok(detail) => fs_op_detail(self@, lane@, path@, op_id@) == Ok::<
                    OpDetailView,
                    LaneFsErrorView,
                >(detail@),
                Err(error) => fs_op_detail(self@, lane@, path@, op_id@) == Err::<
                    OpDetailView,
                    LaneFsErrorView,
                >(error@),
            },
    {
        match normalize_repo_path(path) {
            Err(error) => Err(error),
            Ok(path) => {
                let base = self.worktree.read_file(path.as_str());
                match self.repo.op_detail(path.as_str(), lane, base, op_id) {
                    Err(error) => Err(LaneFsError::Lane(error)),
                    Ok(detail) => Ok(detail),
                }
            },
        }
    }

    /// Removes a lane, and says whether it existed.
    pub fn discard_lane(&mut self, lane: &str) -> (removed: bool)
        requires
            old(self).wf(),
        ensures
            final(self).wf(),
            removed == old(self)@.repo.lanes.contains(lane@),
            final(self)@ == (Fs { repo: repo::repo_discard(old(self)@.repo, lane@), ..old(self)@ }),
            fs_rests(old(self)@) ==> fs_rests(final(self)@),
    {
        self.repo.discard_lane(lane)
    }

    /// Adds a lane, and says whether it is new.
    pub fn create_lane(&mut self, lane: &str) -> (r: Result<bool, LaneFsError>)
        requires
            old(self).wf(),
        ensures
            final(self).wf(),
            match r {
                Ok(fresh) => {
                    &&& types::user_lane(lane@)
                    &&& fresh == !old(self)@.repo.lanes.contains(lane@)
                    &&& final(self)@.repo == (Repo {
                        lanes: old(self)@.repo.lanes.insert(lane@),
                        ..old(self)@.repo
                    })
                    &&& final(self)@.files == old(self)@.files
                },
                Err(error) => {
                    &&& lane_result(types::parsed_lane(lane@)) == Err::<
                        Seq<char>,
                        LaneFsErrorView,
                    >(error@)
                    &&& final(self)@ == old(self)@
                },
            },
            fs_rests(old(self)@) ==> fs_rests(final(self)@),
    {
        match self.repo.create_lane(lane) {
            Ok(fresh) => Ok(fresh),
            Err(error) => Err(LaneFsError::Lane(error)),
        }
    }

    /// What a lane sees at a path.
    pub fn read_file(&self, lane: &str, path: &str) -> (r: Result<Option<Vec<u8>>, LaneFsError>)
        requires
            self.wf(),
        ensures
            read_result(r) == fs_read(self@, lane@, path@),
    {
        match normalize_repo_path(path) {
            Err(error) => Err(error),
            Ok(path) => {
                let base = self.worktree.read_file(path.as_str());
                match self.repo.read_path(path.as_str(), lane, base) {
                    Err(error) => Err(LaneFsError::Lane(error)),
                    Ok(bytes) => Ok(bytes),
                }
            },
        }
    }

    /// Gives a lane bytes at a path. A failure changes nothing.
    pub fn write_file(&mut self, lane: &str, path: &str, bytes: Vec<u8>) -> (r: Result<
        (),
        LaneFsError,
    >)
        requires
            old(self).wf(),
        ensures
            final(self).wf(),
            fs_result(r, final(self)@) == fs_replace(old(self)@, lane@, path@, Some(bytes@)),
            r is Err ==> final(self)@ == old(self)@,
            r is Ok ==> fs_read(final(self)@, lane@, path@) == Ok::<
                Option<Seq<u8>>,
                LaneFsErrorView,
            >(Some(bytes@)),
            fs_rests(old(self)@) ==> fs_rests(final(self)@),
    {
        match normalize_repo_path(path) {
            Err(error) => Err(error),
            Ok(path) => {
                let ghost before = self@;
                let base = self.worktree.read_file(path.as_str());
                match self.repo.replace_path(path.as_str(), lane, base, Some(bytes)) {
                    Err(error) => Err(LaneFsError::Lane(error)),
                    Ok(()) => {
                        proof {
                            if fs_rests(before) {
                                lemma_still_rests(
                                    before.files,
                                    before.repo,
                                    self@.repo,
                                    path@,
                                );
                            }
                        }
                        Ok(())
                    },
                }
            },
        }
    }

    /// Deletes a path in a lane. A failure changes nothing.
    pub fn delete_file(&mut self, lane: &str, path: &str) -> (r: Result<(), LaneFsError>)
        requires
            old(self).wf(),
        ensures
            final(self).wf(),
            fs_result(r, final(self)@) == fs_replace(old(self)@, lane@, path@, None),
            r is Err ==> final(self)@ == old(self)@,
            r is Ok ==> fs_read(final(self)@, lane@, path@) == Ok::<
                Option<Seq<u8>>,
                LaneFsErrorView,
            >(None),
            fs_rests(old(self)@) ==> fs_rests(final(self)@),
    {
        match normalize_repo_path(path) {
            Err(error) => Err(error),
            Ok(path) => {
                let ghost before = self@;
                let base = self.worktree.read_file(path.as_str());
                match self.repo.delete_path(path.as_str(), lane, base) {
                    Err(error) => Err(LaneFsError::Lane(error)),
                    Ok(()) => {
                        proof {
                            if fs_rests(before) {
                                lemma_still_rests(
                                    before.files,
                                    before.repo,
                                    self@.repo,
                                    path@,
                                );
                            }
                        }
                        Ok(())
                    },
                }
            },
        }
    }
}

/// The path of a name in a directory.
pub open spec fn child_of(parent: Seq<char>, child: Seq<char>) -> Seq<char> {
    if parent.len() == 0 {
        child
    } else {
        parent + "/"@ + child
    }
}

/// The path of a name in a directory.
pub fn child_path(parent: &str, child: &str) -> (r: String)
    ensures
        r@ == child_of(parent@, child@),
{
    if parent.is_empty() {
        child.to_owned()
    } else {
        parent.to_owned().concat("/").concat(child)
    }
}

/// What stands in front of the names in a directory.
pub open spec fn dir_prefix(directory: Seq<char>) -> Seq<char> {
    if directory.len() == 0 {
        Seq::empty()
    } else {
        directory + "/"@
    }
}

/// What a lane shows of the names that a directory of the base holds, or the first error.
pub open spec fn shown_entries(
    fs: Fs,
    lane: Seq<char>,
    directory: Seq<char>,
    disk: Seq<(Seq<char>, DirEntryKind)>,
) -> Result<Map<Seq<char>, DirEntryKind>, LaneFsErrorView>
    decreases disk.len(),
{
    if disk.len() == 0 {
        Ok(Map::empty())
    } else {
        let (name, kind) = disk.last();
        let child = child_of(directory, name);
        match shown_entries(fs, lane, directory, disk.drop_last()) {
            Err(error) => Err(error),
            Ok(entries) => match kind {
                DirEntryKind::Directory => if repo::repo_read(fs.repo, child, lane, None) == Ok::<
                    Option<Seq<u8>>,
                    LaneErrorView,
                >(None) {
                    Ok(entries.insert(name, DirEntryKind::Directory))
                } else {
                    Ok(entries)
                },
                DirEntryKind::File => match fs_read(fs, lane, child) {
                    Err(error) => Err(error),
                    Ok(Some(_)) => Ok(entries.insert(name, DirEntryKind::File)),
                    Ok(None) => Ok(entries),
                },
            },
        }
    }
}

/// The name that a path gives to the directory with the prefix, and what it stands for there.
pub open spec fn named_by(prefix: Seq<char>, path: Seq<char>) -> Option<(Seq<char>, DirEntryKind)> {
    match text::after_prefix(path, prefix) {
        None => None,
        Some(tail) => if tail.len() == 0 {
            None
        } else {
            let parts = text::split_text(tail, '/');
            Some(
                (
                    parts[0],
                    if parts.len() > 1 {
                        DirEntryKind::Directory
                    } else {
                        DirEntryKind::File
                    },
                ),
            )
        },
    }
}

/// The names with one more; a directory goes before a file.
pub open spec fn with_name(
    entries: Map<Seq<char>, DirEntryKind>,
    name: Seq<char>,
    kind: DirEntryKind,
) -> Map<Seq<char>, DirEntryKind> {
    if entries.contains_key(name) && kind == DirEntryKind::File {
        entries
    } else {
        entries.insert(name, kind)
    }
}

/// The names of a directory with those that overlays add, or the first error.
pub open spec fn overlaid_entries(
    fs: Fs,
    lane: Seq<char>,
    prefix: Seq<char>,
    paths: Seq<Seq<char>>,
    entries: Map<Seq<char>, DirEntryKind>,
) -> Result<Map<Seq<char>, DirEntryKind>, LaneFsErrorView>
    decreases paths.len(),
{
    if paths.len() == 0 {
        Ok(entries)
    } else {
        match overlaid_entries(fs, lane, prefix, paths.drop_last(), entries) {
            Err(error) => Err(error),
            Ok(entries) => match named_by(prefix, paths.last()) {
                None => Ok(entries),
                Some((name, kind)) => match fs_read(fs, lane, paths.last()) {
                    Err(error) => Err(error),
                    Ok(None) => Ok(entries),
                    Ok(Some(_)) => Ok(with_name(entries, name, kind)),
                },
            },
        }
    }
}

/// The names of a directory as a lane sees them, or why they cannot be listed.
pub open spec fn fs_list_dir(
    fs: Fs,
    lane: Seq<char>,
    raw: Seq<char>,
    disk: Seq<(Seq<char>, DirEntryKind)>,
) -> Result<Map<Seq<char>, DirEntryKind>, LaneFsErrorView> {
    match types::normalized_label(raw) {
        Err(reason) => Err(LaneFsErrorView::BadPath(reason)),
        Ok(directory) => match shown_entries(fs, lane, directory, disk) {
            Err(error) => Err(error),
            Ok(entries) => if !fs.repo.lanes.contains(lane) {
                Err(LaneFsErrorView::Lane(LaneErrorView::LaneMissing(lane)))
            } else {
                overlaid_entries(
                    fs,
                    lane,
                    dir_prefix(directory),
                    repo::overlay_listing(fs.repo, lane),
                    entries,
                )
            },
        },
    }
}

/// `list` holds the names and kinds of `entries`, in order.
pub open spec fn lists_entries(
    list: Seq<(Seq<char>, DirEntryKind)>,
    entries: Map<Seq<char>, DirEntryKind>,
) -> bool {
    &&& text_map::sorted_pairs(list)
    &&& text_map::pairs_map(list) == entries
}

impl LaneFs {
    /// The names in a directory as a lane sees them, in order. `disk` holds the names that the
    /// base has there.
    pub fn list_dir(&self, lane: &str, path: &str, disk: &Vec<DirEntry>) -> (r: Result<
        Vec<DirEntry>,
        LaneFsError,
    >)
        requires
            self.wf(),
        ensures
            match r {
                Ok(list) => fs_list_dir(self@, lane@, path@, sorting::views(disk@)) is Ok
                    && lists_entries(
                    sorting::views(list@),
                    fs_list_dir(self@, lane@, path@, sorting::views(disk@))->Ok_0,
                ),
                Err(error) => fs_list_dir(self@, lane@, path@, sorting::views(disk@)) == Err::<
                    Map<Seq<char>, DirEntryKind>,
                    LaneFsErrorView,
                >(error@),
            },
    {
        let directory = match normalize_repo_dir(path) {
            Err(error) => {
                return Err(error);
            },
            Ok(directory) => directory,
        };
        let mut entries: TextMap<DirEntryKind> = TextMap::new();
        match self.show_entries(lane, directory.as_str(), disk, &mut entries) {
            Err(error) => {
                return Err(error);
            },
            Ok(()) => {},
        }
        let prefix = if directory.as_str().is_empty() {
            String::new()
        } else {
            directory.concat("/")
        };
        assert(prefix@ =~= dir_prefix(directory@));
        let paths = match self.changed_paths(lane) {
            Err(error) => {
                return Err(error);
            },
            Ok(paths) => paths,
        };
        match self.overlay_entries(lane, prefix.as_str(), &paths, &mut entries) {
            Err(error) => Err(error),
            Ok(()) => Ok(dir_entries(&entries)),
        }
    }

    fn show_entries(
        &self,
        lane: &str,
        directory: &str,
        disk: &Vec<DirEntry>,
        entries: &mut TextMap<DirEntryKind>,
    ) -> (r: Result<(), LaneFsError>)
        requires
            self.wf(),
            old(entries).wf(),
            old(entries)@ == Map::<Seq<char>, DirEntryKind>::empty(),
        ensures
            final(entries).wf(),
            entries_result(r, final(entries)@) == shown_entries(
                self@,
                lane@,
                directory@,
                sorting::views(disk@),
            ),
    {
        let ghost all = sorting::views(disk@);
        let mut i: usize = 0;
        assert(all.subrange(0, 0) =~= Seq::empty());
        while i < disk.len()
            invariant
                i <= disk@.len(),
                self.wf(),
                entries.wf(),
                all == sorting::views(disk@),
                shown_entries(self@, lane@, directory@, all.subrange(0, i as int)) == Ok::<
                    Map<Seq<char>, DirEntryKind>,
                    LaneFsErrorView,
                >(entries@),
            decreases disk@.len() - i,
        {
            let entry = &disk[i];
            let child = child_path(directory, entry.name.as_str());
            proof {
                assert(all.subrange(0, i + 1).drop_last() =~= all.subrange(0, i as int));
                assert(all.subrange(0, i + 1).last() == entry@);
            }
            match entry.kind {
                DirEntryKind::Directory => {
                    match self.repo.read_path(child.as_str(), lane, None) {
                        Ok(None) => {
                            let _ = entries.insert(entry.name.clone(), DirEntryKind::Directory);
                        },
                        _ => {},
                    }
                },
                DirEntryKind::File => match self.read_file(lane, child.as_str()) {
                    Err(error) => {
                        proof {
                            lemma_shown_error(self@, lane@, directory@, all, i as int);
                        }
                        return Err(error);
                    },
                    Ok(None) => {},
                    Ok(Some(_)) => {
                        let _ = entries.insert(entry.name.clone(), DirEntryKind::File);
                    },
                },
            }
            i = i + 1;
        }
        assert(all.subrange(0, i as int) =~= all);
        Ok(())
    }

    fn overlay_entries(
        &self,
        lane: &str,
        prefix: &str,
        paths: &Vec<String>,
        entries: &mut TextMap<DirEntryKind>,
    ) -> (r: Result<(), LaneFsError>)
        requires
            self.wf(),
            old(entries).wf(),
        ensures
            final(entries).wf(),
            entries_result(r, final(entries)@) == overlaid_entries(
                self@,
                lane@,
                prefix@,
                text::texts(paths@),
                old(entries)@,
            ),
    {
        let ghost all = text::texts(paths@);
        let ghost start = entries@;
        let mut i: usize = 0;
        assert(all.subrange(0, 0) =~= Seq::empty());
        while i < paths.len()
            invariant
                i <= paths@.len(),
                self.wf(),
                entries.wf(),
                all == text::texts(paths@),
                start == old(entries)@,
                overlaid_entries(self@, lane@, prefix@, all.subrange(0, i as int), start) == Ok::<
                    Map<Seq<char>, DirEntryKind>,
                    LaneFsErrorView,
                >(entries@),
            decreases paths@.len() - i,
        {
            let path = &paths[i];
            proof {
                assert(all.subrange(0, i + 1).drop_last() =~= all.subrange(0, i as int));
                assert(all.subrange(0, i + 1).last() == path@);
            }
            match entry_named_by(prefix, path.as_str()) {
                None => {},
                Some(entry) => match self.read_file(lane, path.as_str()) {
                    Err(error) => {
                        proof {
                            lemma_overlaid_error(self@, lane@, prefix@, all, start, i as int);
                        }
                        return Err(error);
                    },
                    Ok(None) => {},
                    Ok(Some(_)) => {
                        let known = entries.contains_key(entry.name.as_str());
                        match entry.kind {
                            DirEntryKind::Directory => {
                                let _ = entries.insert(entry.name, DirEntryKind::Directory);
                            },
                            DirEntryKind::File => {
                                if !known {
                                    let _ = entries.insert(entry.name, DirEntryKind::File);
                                }
                            },
                        }
                    },
                },
            }
            i = i + 1;
        }
        assert(all.subrange(0, i as int) =~= all);
        Ok(())
    }
}

/// The view of a result with the entries that it leaves.
pub open spec fn entries_result(
    r: Result<(), LaneFsError>,
    entries: Map<Seq<char>, DirEntryKind>,
) -> Result<Map<Seq<char>, DirEntryKind>, LaneFsErrorView> {
    match r {
        Ok(()) => Ok(entries),
        Err(error) => Err(error@),
    }
}

/// An error at one name is the error of the directory.
proof fn lemma_shown_error(
    fs: Fs,
    lane: Seq<char>,
    directory: Seq<char>,
    disk: Seq<(Seq<char>, DirEntryKind)>,
    i: int,
)
    requires
        0 <= i < disk.len(),
        shown_entries(fs, lane, directory, disk.subrange(0, i + 1)) is Err,
    ensures
        shown_entries(fs, lane, directory, disk) == shown_entries(
            fs,
            lane,
            directory,
            disk.subrange(0, i + 1),
        ),
    decreases disk.len(),
{
    if i + 1 == disk.len() {
        assert(disk.subrange(0, i + 1) =~= disk);
    } else {
        let rest = disk.drop_last();
        assert(rest.subrange(0, i + 1) =~= disk.subrange(0, i + 1));
        lemma_shown_error(fs, lane, directory, rest, i);
    }
}

/// An error at one path is the error of the listing.
proof fn lemma_overlaid_error(
    fs: Fs,
    lane: Seq<char>,
    prefix: Seq<char>,
    paths: Seq<Seq<char>>,
    entries: Map<Seq<char>, DirEntryKind>,
    i: int,
)
    requires
        0 <= i < paths.len(),
        overlaid_entries(fs, lane, prefix, paths.subrange(0, i + 1), entries) is Err,
    ensures
        overlaid_entries(fs, lane, prefix, paths, entries) == overlaid_entries(
            fs,
            lane,
            prefix,
            paths.subrange(0, i + 1),
            entries,
        ),
    decreases paths.len(),
{
    if i + 1 == paths.len() {
        assert(paths.subrange(0, i + 1) =~= paths);
    } else {
        let rest = paths.drop_last();
        assert(rest.subrange(0, i + 1) =~= paths.subrange(0, i + 1));
        lemma_overlaid_error(fs, lane, prefix, rest, entries, i);
    }
}

fn entry_named_by(prefix: &str, path: &str) -> (r: Option<DirEntry>)
    ensures
        match r {
            Some(entry) => named_by(prefix@, path@) == Some(entry@),
            None => named_by(prefix@, path@) is None,
        },
{
    match strip_prefix(path, prefix) {
        None => None,
        Some(tail) => {
            if tail.as_str().is_empty() {
                return None;
            }
            let parts = split(tail.as_str(), '/');
            proof {
                text::lemma_split_text_nonempty(tail@, '/');
            }
            let kind = if parts.len() > 1 {
                DirEntryKind::Directory
            } else {
                DirEntryKind::File
            };
            assert(text::texts(parts@)[0] == parts@[0]@);
            Some(DirEntry { name: parts[0].clone(), kind })
        },
    }
}

fn dir_entries(entries: &TextMap<DirEntryKind>) -> (r: Vec<DirEntry>)
    requires
        entries.wf(),
    ensures
        lists_entries(sorting::views(r@), entries@),
{
    let mut r: Vec<DirEntry> = Vec::new();
    let mut i: usize = 0;
    while i < entries.len()
        invariant
            i <= entries.pairs().len(),
            r@.len() == i,
            forall|k: int| 0 <= k < i ==> (#[trigger] r@[k])@ == entries.pairs()[k],
        decreases entries.pairs().len() - i,
    {
        r.push(DirEntry { name: entries.key_at(i).to_owned(), kind: *entries.value_at(i) });
        i = i + 1;
    }
    assert(sorting::views(r@) =~= entries.pairs());
    r
}

} // verus!
