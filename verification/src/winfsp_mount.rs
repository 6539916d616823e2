//! A lane mounted as a drive or a directory: what is written goes straight into the lane.
use vstd::prelude::*;

use crate::laws;
use crate::materialize::snapshot;
use crate::materialize::snapshot::add_names;
use crate::repo;
use crate::repo::Repo;
use crate::sorting;
use crate::text;
use crate::text::{contains_char, rsplit_once, strip_prefix};
use crate::text_map;
use crate::text_map::TextMap;
use crate::types;
use crate::types::is_lane_state_path;
use crate::vfs;
use crate::vfs::{child_path, DirEntryKind, Fs, LaneFs, LaneFsError, LaneFsErrorView};
use crate::types::{LaneError, LaneErrorView};
use crate::virtual_exec::edit;
use crate::virtual_exec::handles;
use crate::virtual_exec::nodes;
use crate::virtual_exec::nodes::{label_of_name, Status};
use crate::virtual_exec::state;
use crate::virtual_exec::state::{DiskTree, Names};

verus! {

/// The option that asks for a directory.
pub const FILE_DIRECTORY_FILE: u32 = 0x0000_0001;

/// The option that asks for a file.
pub const FILE_NON_DIRECTORY_FILE: u32 = 0x0000_0040;

/// The attribute of directories.
pub const FILE_ATTRIBUTE_DIRECTORY: u32 = 0x0000_0010;

/// The attribute of files.
pub const FILE_ATTRIBUTE_ARCHIVE: u32 = 0x0000_0020;

/// Which lane of which repo is mounted where.
#[derive(Clone, Debug, PartialEq, Eq)]
pub struct MountOptions {
    pub repo_root: String,
    pub lane: String,
    pub mount_path: String,
}

/// Whether a path is a drive rather than a directory.
pub open spec fn is_drive(path: Seq<char>) -> bool {
    types::utf8_len(path) == 2 && text::ends_with(path, ":"@)
}

/// Whether a path is a drive rather than a directory.
pub fn looks_like_drive_mount(path: &str) -> (r: bool)
    ensures
        r == is_drive(path@),
{
    let (_, length, longer) = types::utf8_beginning(path, 2);
    !longer && length == 2 && text::text_ends_with(path, ":")
}

/// The root of a mounted view.
pub fn view_root(mount_path: &str) -> (r: String)
    ensures
        r@ == if is_drive(mount_path@) {
            mount_path@ + "\\"@
        } else {
            mount_path@
        },
{
    if looks_like_drive_mount(mount_path) {
        mount_path.to_owned().concat("\\")
    } else {
        mount_path.to_owned()
    }
}

/// The status for an error of a lane.
pub open spec fn lane_fault(error: LaneErrorView) -> Status {
    match error {
        LaneErrorView::LaneMissing(_) => Status::NameNotFound,
        _ => Status::InternalError,
    }
}

/// The status for an error of a lane's file tree.
pub open spec fn fs_fault(error: LaneFsErrorView) -> Status {
    match error {
        LaneFsErrorView::BadPath(_) => Status::NameNotFound,
        LaneFsErrorView::Io(_) => Status::InternalError,
        LaneFsErrorView::Lane(error) => lane_fault(error),
    }
}

/// The status for an error of a lane's file tree.
pub fn map_fs_error(error: &LaneFsError) -> (r: Status)
    ensures
        r == fs_fault(error@),
{
    match error {
        LaneFsError::BadPath(_) => Status::NameNotFound,
        LaneFsError::Io(_) => Status::InternalError,
        LaneFsError::Lane(error) => match error {
            LaneError::LaneMissing(_) => Status::NameNotFound,
            _ => Status::InternalError,
        },
    }
}

/// A file or a directory.
#[derive(Clone, Copy, Debug, PartialEq, Eq, Structural)]
pub enum NodeKind {
    Directory,
    File,
}

/// The attribute of a node.
pub fn attributes(kind: NodeKind) -> (r: u32)
    ensures
        r == match kind {
            NodeKind::Directory => FILE_ATTRIBUTE_DIRECTORY,
            NodeKind::File => FILE_ATTRIBUTE_ARCHIVE,
        },
{
    match kind {
        NodeKind::Directory => FILE_ATTRIBUTE_DIRECTORY,
        NodeKind::File => FILE_ATTRIBUTE_ARCHIVE,
    }
}

/// The path that a name stands for. Lane state is not shown.
pub fn mount_path(name: &str) -> (r: Result<String, Status>)
    ensures
        nodes::path_result(r) == if types::rooted_at(nodes::view_label(name@), ".lane"@) {
            Err(Status::NameNotFound)
        } else {
            Ok::<Seq<char>, Status>(nodes::view_label(name@))
        },
{
    let path = label_of_name(name);
    if is_lane_state_path(path.as_str()) {
        Err(Status::NameNotFound)
    } else {
        Ok(path)
    }
}

/// Why a node of a kind cannot be opened with some options.
pub open spec fn wrong_kind(kind: NodeKind, options: u32) -> Option<Status> {
    if options & FILE_DIRECTORY_FILE != 0 && kind != NodeKind::Directory {
        Some(Status::NotADirectory)
    } else if options & FILE_NON_DIRECTORY_FILE != 0 && kind == NodeKind::Directory {
        Some(Status::FileIsADirectory)
    } else {
        None
    }
}

/// Refuses a node of another kind than the options ask for.
pub fn ensure_open_kind(kind: NodeKind, options: u32) -> (r: Result<(), Status>)
    ensures
        handles::status_of(r) == wrong_kind(kind, options),
{
    if options & FILE_DIRECTORY_FILE != 0 && kind != NodeKind::Directory {
        return Err(Status::NotADirectory);
    }
    if options & FILE_NON_DIRECTORY_FILE != 0 && kind == NodeKind::Directory {
        return Err(Status::FileIsADirectory);
    }
    Ok(())
}

/// Refuses a directory.
pub fn ensure_file(kind: NodeKind) -> (r: Result<(), Status>)
    ensures
        handles::status_of(r) == match kind {
            NodeKind::File => None::<Status>,
            NodeKind::Directory => Some(Status::FileIsADirectory),
        },
{
    match kind {
        NodeKind::File => Ok(()),
        NodeKind::Directory => Err(Status::FileIsADirectory),
    }
}

/// Refuses a file.
pub fn ensure_directory(kind: NodeKind) -> (r: Result<(), Status>)
    ensures
        handles::status_of(r) == match kind {
            NodeKind::Directory => None::<Status>,
            NodeKind::File => Some(Status::NotADirectory),
        },
{
    match kind {
        NodeKind::Directory => Ok(()),
        NodeKind::File => Err(Status::NotADirectory),
    }
}

/// A node that is open.
#[derive(Clone, Debug, PartialEq, Eq)]
pub struct LaneFileContext {
    pub path: String,
    pub kind: NodeKind,
    pub delete_on_cleanup: bool,
}

/// The name of a path right below a directory.
pub open spec fn child_name(directory: Seq<char>, path: Seq<char>) -> Option<Seq<char>> {
    match text::after_prefix(path, vfs::dir_prefix(directory)) {
        Some(tail) => if tail.len() == 0 || tail.contains('/') {
            None
        } else {
            Some(tail)
        },
        None => None,
    }
}

/// The name of a path right below a directory.
pub fn direct_child(directory: &str, path: &str) -> (r: Option<String>)
    ensures
        text::opt_text(r) == child_name(directory@, path@),
{
    let prefix: String = if directory.is_empty() {
        String::new()
    } else {
        directory.to_owned().concat("/")
    };
    assert(prefix@ =~= vfs::dir_prefix(directory@));
    match strip_prefix(path, prefix.as_str()) {
        None => None,
        Some(tail) => {
            if tail.as_str().is_empty() || contains_char(tail.as_str(), '/') {
                None
            } else {
                Some(tail)
            }
        },
    }
}

/// A mounted lane. Directories that hold no file exist beside it.
#[derive(Debug, PartialEq, Eq)]
pub struct LaneMount {
    pub lane: String,
    pub fs: LaneFs,
    pub created_dirs: TextMap<()>,
}

/// A [`LaneMount`] as a mathematical value.
#[verifier::ext_equal]
pub struct MountView {
    pub lane: Seq<char>,
    pub fs: Fs,
    pub created_dirs: Set<Seq<char>>,
}

impl View for LaneMount {
    type V = MountView;

    open spec fn view(&self) -> MountView {
        MountView {
            lane: self.lane@,
            fs: self.fs@,
            created_dirs: self.created_dirs@.dom(),
        }
    }
}

/// The names of a directory with those of created directories right below it.
pub open spec fn with_created(
    names: Map<Seq<char>, DirEntryKind>,
    directory: Seq<char>,
    created: Seq<Seq<char>>,
) -> Map<Seq<char>, DirEntryKind>
    decreases created.len(),
{
    if created.len() == 0 {
        names
    } else {
        let before = with_created(names, directory, created.drop_last());
        match child_name(directory, created.last()) {
            Some(name) => if before.contains_key(name) {
                before
            } else {
                before.insert(name, DirEntryKind::Directory)
            },
            None => before,
        }
    }
}

/// What the mount shows in a directory.
pub open spec fn names_in(
    mount: MountView,
    disk: Map<Seq<char>, Names>,
    path: Seq<char>,
) -> Result<Map<Seq<char>, DirEntryKind>, Status> {
    match vfs::fs_list_dir(mount.fs, mount.lane, path, state::names_on_disk(disk, path)) {
        Err(error) => Err(fs_fault(error)),
        Ok(names) => Ok(
            with_created(names, path, text_map::listing(mount.created_dirs)),
        ),
    }
}

/// Whether the mount shows a directory at a path.
pub open spec fn shows_directory(
    mount: MountView,
    disk: Map<Seq<char>, Names>,
    path: Seq<char>,
) -> Result<bool, Status> {
    if path.len() == 0 || mount.created_dirs.contains(path) {
        Ok(true)
    } else {
        match names_in(mount, disk, path) {
            Err(status) => Err(status),
            Ok(names) => Ok(names.dom() != Set::<Seq<char>>::empty()),
        }
    }
}

/// What the mount shows at a path.
pub open spec fn kind_at(mount: MountView, disk: Map<Seq<char>, Names>, path: Seq<char>) -> Result<
    NodeKind,
    Status,
> {
    match shows_directory(mount, disk, path) {
        Err(status) => Err(status),
        Ok(true) => Ok(NodeKind::Directory),
        Ok(false) => match vfs::fs_read(mount.fs, mount.lane, path) {
            Err(error) => Err(fs_fault(error)),
            Ok(Some(_)) => Ok(NodeKind::File),
            Ok(None) => Err(Status::NameNotFound),
        },
    }
}

/// The bytes of the file at a path.
pub open spec fn bytes_at(mount: MountView, path: Seq<char>) -> Result<Seq<u8>, Status> {
    match vfs::fs_read(mount.fs, mount.lane, path) {
        Err(error) => Err(fs_fault(error)),
        Ok(Some(bytes)) => Ok(bytes),
        Ok(None) => Err(Status::NameNotFound),
    }
}

/// The mount after the file at a path was written or deleted.
pub open spec fn put_at(mount: MountView, path: Seq<char>, content: Option<Seq<u8>>) -> Result<
    MountView,
    Status,
> {
    match vfs::fs_replace(mount.fs, mount.lane, path, content) {
        Err(error) => Err(fs_fault(error)),
        Ok(fs) => Ok(MountView { fs, ..mount }),
    }
}

/// The view of a result, with the mount that it left.
pub open spec fn mount_result(r: Result<(), Status>, mount: MountView) -> Result<MountView, Status> {
    match r {
        Ok(()) => Ok(mount),
        Err(status) => Err(status),
    }
}

/// The bytes of a file after a write. A write that must not make the file longer does nothing
/// behind its end.
pub open spec fn written_bytes(
    bytes: Seq<u8>,
    buffer: Seq<u8>,
    offset: nat,
    constrained: bool,
) -> Option<Seq<u8>> {
    if constrained && offset > bytes.len() {
        None
    } else {
        Some(
            edit::overwritten(edit::stretched(bytes, offset + buffer.len()), offset, buffer),
        )
    }
}

/// Where the parent of a path must be a directory and is none.
pub open spec fn parent_fault(mount: MountView, disk: Map<Seq<char>, Names>, path: Seq<char>) -> Option<
    Status,
> {
    match text::split_last(path, '/') {
        None => None,
        Some((parent, _)) => match shows_directory(mount, disk, parent) {
            Err(status) => Some(status),
            Ok(true) => None,
            Ok(false) => Some(Status::PathNotFound),
        },
    }
}

impl LaneMount {
    /// The maps have their keys in order.
    pub open spec fn wf(&self) -> bool {
        self.fs.wf() && self.created_dirs.wf()
    }

    /// A lane just mounted.
    pub fn new(lane: &str, fs: LaneFs) -> (r: Self)
        requires
            fs.wf(),
        ensures
            r.wf(),
            r@ == (MountView { lane: lane@, fs: fs@, created_dirs: Set::empty() }),
    {
        let mount = LaneMount { lane: lane.to_owned(), fs, created_dirs: TextMap::new() };
        assert(mount@.created_dirs =~= Set::empty());
        mount
    }

    /// What the mount shows in a directory, in order.
    pub fn list_dir(&self, disk: &DiskTree, path: &str) -> (r: Result<TextMap<DirEntryKind>, Status>)
        requires
            self.wf(),
            disk.wf(),
        ensures
            match r {
                Ok(names) => names.wf() && names_in(self@, disk@, path@) == Ok::<
                    Map<Seq<char>, DirEntryKind>,
                    Status,
                >(names@),
                Err(status) => names_in(self@, disk@, path@) == Err::<
                    Map<Seq<char>, DirEntryKind>,
                    Status,
                >(status),
            },
    {
        let on_disk = disk.names(path);
        let list = match self.fs.list_dir(self.lane.as_str(), path, &on_disk) {
            Err(error) => {
                return Err(map_fs_error(&error));
            },
            Ok(list) => list,
        };
        let ghost all = sorting::views(list@);
        let ghost kinds = vfs::fs_list_dir(
            self@.fs,
            self@.lane,
            path@,
            state::names_on_disk(disk@, path@),
        )->Ok_0;
        let mut names: TextMap<DirEntryKind> = TextMap::new();
        let mut i: usize = 0;
        proof {
            state::lemma_lists(all, kinds);
            text_map::lemma_pairs_map(all);
        }
        while i < list.len()
            invariant
                i <= list@.len(),
                all == sorting::views(list@),
                forall|k: int|
                    0 <= k < all.len() ==> kinds.contains_key((#[trigger] all[k]).0)
                        && kinds[all[k].0] == all[k].1,
                names.wf(),
                forall|n: Seq<char>| #[trigger]
                    names@.contains_key(n) ==> kinds.contains_key(n) && names@[n] == kinds[n],
                forall|k: int| 0 <= k < i ==> names@.contains_key((#[trigger] all[k]).0),
            decreases list@.len() - i,
        {
            assert(all[i as int] == list@[i as int]@);
            let _ = names.insert(list[i].name.clone(), list[i].kind);
            i = i + 1;
        }
        proof {
            assert forall|n: Seq<char>| #[trigger] kinds.contains_key(n) implies names@.contains_key(n) by {
                let k = choose|k: int| 0 <= k < all.len() && (#[trigger] all[k]).0 == n;
                assert(names@.contains_key(all[k].0));
            }
            assert(names@ =~= kinds);
        }
        let ghost created = self.created_dirs.keys();
        let mut j: usize = 0;
        proof {
            self.created_dirs.lemma_wf();
            assert(created.subrange(0, 0) =~= Seq::empty());
        }
        while j < self.created_dirs.len()
            invariant
                j <= self.created_dirs.pairs().len(),
                created == self.created_dirs.keys(),
                names.wf(),
                names@ == with_created(kinds, path@, created.subrange(0, j as int)),
            decreases self.created_dirs.pairs().len() - j,
        {
            let dir = self.created_dirs.key_at(j);
            proof {
                assert(created.subrange(0, j + 1).drop_last() =~= created.subrange(0, j as int));
                assert(created.subrange(0, j + 1).last() == dir@);
            }
            match direct_child(path, dir) {
                None => {},
                Some(name) => {
                    if !names.contains_key(name.as_str()) {
                        let _ = names.insert(name, DirEntryKind::Directory);
                    }
                },
            }
            j = j + 1;
        }
        assert(created.subrange(0, j as int) =~= created);
        Ok(names)
    }

    /// Whether the mount shows a directory at a path.
    pub fn is_directory(&self, disk: &DiskTree, path: &str) -> (r: Result<bool, Status>)
        requires
            self.wf(),
            disk.wf(),
        ensures
            r == shows_directory(self@, disk@, path@),
    {
        if path.is_empty() || self.created_dirs.contains_key(path) {
            return Ok(true);
        }
        match self.list_dir(disk, path) {
            Err(status) => Err(status),
            Ok(names) => {
                let empty = names.is_empty();
                proof {
                    if empty {
                        assert(names@.dom() =~= Set::empty());
                    } else if names@.dom() == Set::<Seq<char>>::empty() {
                        assert(names@ =~= Map::empty());
                    }
                }
                Ok(!empty)
            },
        }
    }

    /// What the mount shows at a path.
    pub fn node_kind(&self, disk: &DiskTree, path: &str) -> (r: Result<NodeKind, Status>)
        requires
            self.wf(),
            disk.wf(),
        ensures
            r == kind_at(self@, disk@, path@),
    {
        match self.is_directory(disk, path) {
            Err(status) => {
                return Err(status);
            },
            Ok(directory) => {
                if directory {
                    return Ok(NodeKind::Directory);
                }
            },
        }
        match self.fs.read_file(self.lane.as_str(), path) {
            Err(error) => Err(map_fs_error(&error)),
            Ok(Some(_)) => Ok(NodeKind::File),
            Ok(None) => Err(Status::NameNotFound),
        }
    }

    /// The bytes of the file at a path.
    pub fn read_file(&self, path: &str) -> (r: Result<Vec<u8>, Status>)
        requires
            self.wf(),
        ensures
            state::bytes_result(r) == bytes_at(self@, path@),
    {
        match self.fs.read_file(self.lane.as_str(), path) {
            Err(error) => Err(map_fs_error(&error)),
            Ok(Some(bytes)) => Ok(bytes),
            Ok(None) => Err(Status::NameNotFound),
        }
    }

    /// Writes a whole file.
    pub fn write_file(&mut self, path: &str, bytes: Vec<u8>) -> (r: Result<(), Status>)
        requires
            old(self).wf(),
        ensures
            final(self).wf(),
            mount_result(r, final(self)@) == put_at(old(self)@, path@, Some(bytes@)),
            r is Err ==> final(self)@ == old(self)@,
            r is Ok ==> bytes_at(final(self)@, path@) == Ok::<Seq<u8>, Status>(bytes@),
    {
        match self.fs.write_file(self.lane.as_str(), path, bytes) {
            Err(error) => Err(map_fs_error(&error)),
            Ok(()) => Ok(()),
        }
    }

    /// Deletes a file.
    pub fn delete_file(&mut self, path: &str) -> (r: Result<(), Status>)
        requires
            old(self).wf(),
        ensures
            final(self).wf(),
            mount_result(r, final(self)@) == put_at(old(self)@, path@, None),
            r is Err ==> final(self)@ == old(self)@,
            r is Ok ==> bytes_at(final(self)@, path@) == Err::<Seq<u8>, Status>(
                Status::NameNotFound,
            ),
    {
        match self.fs.delete_file(self.lane.as_str(), path) {
            Err(error) => Err(map_fs_error(&error)),
            Ok(()) => Ok(()),
        }
    }

    /// Refuses a path whose parent is no directory.
    pub fn ensure_parent_directory(&self, disk: &DiskTree, path: &str) -> (r: Result<(), Status>)
        requires
            self.wf(),
            disk.wf(),
        ensures
            handles::status_of(r) == parent_fault(self@, disk@, path@),
    {
        match rsplit_once(path, '/') {
            None => Ok(()),
            Some((parent, _)) => match self.is_directory(disk, parent.as_str()) {
                Err(status) => Err(status),
                Ok(directory) => {
                    if directory {
                        Ok(())
                    } else {
                        Err(Status::PathNotFound)
                    }
                },
            },
        }
    }

    /// The size of the node at a path.
    pub fn size_of_node(&self, path: &str, kind: NodeKind) -> (r: Result<u64, Status>)
        requires
            self.wf(),
        ensures
            match r {
                Ok(size) => match kind {
                    NodeKind::Directory => size == 0,
                    NodeKind::File => bytes_at(self@, path@) is Ok && size == bytes_at(
                        self@,
                        path@,
                    )->Ok_0.len(),
                },
                Err(status) => kind == NodeKind::File && bytes_at(self@, path@) == Err::<
                    Seq<u8>,
                    Status,
                >(status),
            },
    {
        match kind {
            NodeKind::Directory => Ok(0),
            NodeKind::File => match self.read_file(path) {
                Err(status) => Err(status),
                Ok(bytes) => Ok(bytes.len() as u64),
            },
        }
    }

    /// Creates a file or a directory where there is nothing.
    pub fn create(&mut self, disk: &DiskTree, name: &str, options: u32) -> (r: Result<
        LaneFileContext,
        Status,
    >)
        requires
            old(self).wf(),
            disk.wf(),
        ensures
            final(self).wf(),
            (match r {
                Ok(context) => Ok((final(self)@, context.path@)),
                Err(status) => Err(status),
            }) == created(old(self)@, disk@, name@, options & FILE_DIRECTORY_FILE != 0),
            r is Ok ==> !r->Ok_0.delete_on_cleanup && (r->Ok_0.kind == NodeKind::Directory) == (
            options & FILE_DIRECTORY_FILE != 0),
            r is Err ==> final(self)@ == old(self)@,
    {
        let path = match mount_path(name) {
            Err(status) => {
                return Err(status);
            },
            Ok(path) => path,
        };
        if self.node_kind(disk, path.as_str()).is_ok() {
            return Err(Status::NameCollision);
        }
        match self.ensure_parent_directory(disk, path.as_str()) {
            Err(status) => {
                return Err(status);
            },
            Ok(()) => {},
        }
        if options & FILE_DIRECTORY_FILE != 0 {
            let ghost before = self@;
            let _ = self.created_dirs.insert(path.clone(), ());
            assert(self@.created_dirs =~= before.created_dirs.insert(path@));
            return Ok(
                LaneFileContext { path, kind: NodeKind::Directory, delete_on_cleanup: false },
            );
        }
        let none: Vec<u8> = Vec::new();
        assert(none@ =~= Seq::empty());
        match self.write_file(path.as_str(), none) {
            Err(status) => Err(status),
            Ok(()) => Ok(
                LaneFileContext { path, kind: NodeKind::File, delete_on_cleanup: false },
            ),
        }
    }

    /// Opens the node that a name stands for.
    pub fn open(&self, disk: &DiskTree, name: &str, options: u32) -> (r: Result<
        LaneFileContext,
        Status,
    >)
        requires
            self.wf(),
            disk.wf(),
        ensures
            (match r {
                Ok(context) => Ok((context.path@, context.kind)),
                Err(status) => Err(status),
            }) == opened(self@, disk@, name@, options),
            r is Ok ==> !r->Ok_0.delete_on_cleanup,
    {
        let path = match mount_path(name) {
            Err(status) => {
                return Err(status);
            },
            Ok(path) => path,
        };
        let kind = match self.node_kind(disk, path.as_str()) {
            Err(status) => {
                return Err(status);
            },
            Ok(kind) => kind,
        };
        match ensure_open_kind(kind, options) {
            Err(status) => Err(status),
            Ok(()) => Ok(LaneFileContext { path, kind, delete_on_cleanup: false }),
        }
    }

    /// Closes a node, and deletes it where it is to be deleted.
    pub fn cleanup(&mut self, context: &LaneFileContext, delete: bool)
        requires
            old(self).wf(),
        ensures
            final(self).wf(),
            final(self)@ == if !context.delete_on_cleanup && !delete {
                old(self)@
            } else {
                match context.kind {
                    NodeKind::Directory => MountView {
                        created_dirs: old(self)@.created_dirs.remove(context.path@),
                        ..old(self)@
                    },
                    NodeKind::File => match put_at(old(self)@, context.path@, None) {
                        Ok(after) => after,
                        Err(_) => old(self)@,
                    },
                }
            },
    {
        if !context.delete_on_cleanup && !delete {
            return;
        }
        match context.kind {
            NodeKind::Directory => {
                let ghost before = self@;
                let _ = self.created_dirs.remove(context.path.as_str());
                assert(self@.created_dirs =~= before.created_dirs.remove(context.path@));
            },
            NodeKind::File => {
                let _ = self.delete_file(context.path.as_str());
            },
        }
    }

    /// Empties a file.
    pub fn overwrite(&mut self, context: &LaneFileContext) -> (r: Result<(), Status>)
        requires
            old(self).wf(),
        ensures
            final(self).wf(),
            mount_result(r, final(self)@) == match context.kind {
                NodeKind::Directory => Err::<MountView, Status>(Status::FileIsADirectory),
                NodeKind::File => put_at(old(self)@, context.path@, Some(Seq::empty())),
            },
            r is Err ==> final(self)@ == old(self)@,
    {
        match ensure_file(context.kind) {
            Err(status) => {
                return Err(status);
            },
            Ok(()) => {},
        }
        let none: Vec<u8> = Vec::new();
        assert(none@ =~= Seq::empty());
        self.write_file(context.path.as_str(), none)
    }

    /// Up to `len` bytes of a file.
    pub fn read(&self, context: &LaneFileContext, offset: usize, len: usize) -> (r: Result<
        Vec<u8>,
        Status,
    >)
        requires
            self.wf(),
            offset + len <= usize::MAX,
        ensures
            state::bytes_result(r) == match context.kind {
                NodeKind::Directory => Err::<Seq<u8>, Status>(Status::FileIsADirectory),
                NodeKind::File => match bytes_at(self@, context.path@) {
                    Err(status) => Err(status),
                    Ok(bytes) => Ok(bytes_between(bytes, offset as int, offset + len)),
                },
            },
    {
        match ensure_file(context.kind) {
            Err(status) => {
                return Err(status);
            },
            Ok(()) => {},
        }
        let bytes = match self.read_file(context.path.as_str()) {
            Err(status) => {
                return Err(status);
            },
            Ok(bytes) => bytes,
        };
        let mut slice: Vec<u8> = Vec::new();
        if offset >= bytes.len() {
            assert(slice@ =~= Seq::empty());
            return Ok(slice);
        }
        let end: usize = if offset + len < bytes.len() {
            offset + len
        } else {
            bytes.len()
        };
        let mut i: usize = offset;
        while i < end
            invariant
                offset <= i <= end <= bytes@.len(),
                slice@ =~= bytes@.subrange(offset as int, i as int),
            decreases end - i,
        {
            slice.push(bytes[i]);
            i = i + 1;
        }
        Ok(slice)
    }

    /// What the mount shows in an open directory, each name with its kind and its size.
    pub fn read_directory(&self, disk: &DiskTree, context: &LaneFileContext) -> (r: Result<
        Vec<(String, NodeKind, u64)>,
        Status,
    >)
        requires
            self.wf(),
            disk.wf(),
        ensures
            (match r {
                Ok(rows) => Ok(dir_rows_view(rows@)),
                Err(status) => Err(status),
            }) == directory_read(self@, disk@, context.path@, context.kind),
    {
        match ensure_directory(context.kind) {
            Err(status) => {
                return Err(status);
            },
            Ok(()) => {},
        }
        let names = match self.list_dir(disk, context.path.as_str()) {
            Err(status) => {
                return Err(status);
            },
            Ok(names) => names,
        };
        let mut rows: Vec<(String, NodeKind, u64)> = Vec::new();
        let ghost dir = context.path@;
        let ghost keys = names.keys();
        let mut i: usize = 0;
        proof {
            names.lemma_wf();
            assert(keys.subrange(0, 0) =~= Seq::empty());
            assert(dir_rows_view(rows@) =~= Seq::empty());
        }
        while i < names.len()
            invariant
                i <= names.pairs().len(),
                self.wf(),
                names.wf(),
                dir == context.path@,
                context.kind == NodeKind::Directory,
                keys == names.keys(),
                keys == text_map::listing(names@.dom()),
                names_in(self@, disk@, dir) == Ok::<Map<Seq<char>, DirEntryKind>, Status>(names@),
                rows_of(self@, dir, names@, keys.subrange(0, i as int)) == Ok::<
                    Seq<(Seq<char>, NodeKind, u64)>,
                    Status,
                >(dir_rows_view(rows@)),
            decreases names.pairs().len() - i,
        {
            let name = names.key_at(i);
            proof {
                names.lemma_wf();
                assert(keys.subrange(0, i + 1).drop_last() =~= keys.subrange(0, i as int));
                assert(keys.subrange(0, i + 1).last() == name@);
                assert(names@.contains_key(name@));
            }
            let shown = match names.value_at(i) {
                DirEntryKind::Directory => Ok((NodeKind::Directory, 0)),
                DirEntryKind::File => {
                    let path = child_path(context.path.as_str(), name);
                    match self.fs.read_file(self.lane.as_str(), path.as_str()) {
                        Err(error) => Err(map_fs_error(&error)),
                        Ok(None) => Ok((NodeKind::File, 0)),
                        Ok(Some(bytes)) => Ok((NodeKind::File, bytes.len() as u64)),
                    }
                },
            };
            match shown {
                Err(status) => {
                    proof {
                        lemma_rows_error(self@, dir, names@, keys, i + 1);
                    }
                    return Err(status);
                },
                Ok((kind, size)) => {
                    let ghost before = dir_rows_view(rows@);
                    rows.push((name.to_owned(), kind, size));
                    assert(dir_rows_view(rows@) =~= before.push((name@, kind, size)));
                },
            }
            i = i + 1;
        }
        assert(keys.subrange(0, i as int) =~= keys);
        Ok(rows)
    }

    /// Renames a file.
    pub fn rename(
        &mut self,
        disk: &DiskTree,
        context: &LaneFileContext,
        name: &str,
        replace: bool,
    ) -> (r: Result<(), Status>)
        requires
            old(self).wf(),
            disk.wf(),
        ensures
            final(self).wf(),
            (final(self)@, handles::status_of(r)) == match context.kind {
                NodeKind::Directory => (old(self)@, Some(Status::FileIsADirectory)),
                NodeKind::File => renamed(old(self)@, disk@, context.path@, name@, replace),
            },
    {
        match ensure_file(context.kind) {
            Err(status) => {
                return Err(status);
            },
            Ok(()) => {},
        }
        let to = match mount_path(name) {
            Err(status) => {
                return Err(status);
            },
            Ok(to) => to,
        };
        if !replace && self.node_kind(disk, to.as_str()).is_ok() {
            return Err(Status::NameCollision);
        }
        match self.ensure_parent_directory(disk, to.as_str()) {
            Err(status) => {
                return Err(status);
            },
            Ok(()) => {},
        }
        let bytes = match self.read_file(context.path.as_str()) {
            Err(status) => {
                return Err(status);
            },
            Ok(bytes) => bytes,
        };
        match self.write_file(to.as_str(), bytes) {
            Err(status) => Err(status),
            Ok(()) => self.delete_file(context.path.as_str()),
        }
    }

    /// Marks a node for deletion, or takes the mark back. A directory is marked only where it shows
    /// nothing.
    pub fn set_delete(
        &self,
        disk: &DiskTree,
        context: &mut LaneFileContext,
        delete: bool,
    ) -> (r: Result<(), Status>)
        requires
            self.wf(),
            disk.wf(),
        ensures
            handles::status_of(r) == cannot_mark(
                self@,
                disk@,
                old(context).path@,
                old(context).kind,
                delete,
            ),
            final(context).path == old(context).path,
            final(context).kind == old(context).kind,
            final(context).delete_on_cleanup == if r is Ok {
                delete
            } else {
                old(context).delete_on_cleanup
            },
    {
        if delete && context.kind == NodeKind::Directory {
            match self.list_dir(disk, context.path.as_str()) {
                Err(status) => {
                    return Err(status);
                },
                Ok(names) => {
                    let empty = names.is_empty();
                    proof {
                        if empty {
                            assert(names@.dom() =~= Set::empty());
                        } else if names@.dom() == Set::<Seq<char>>::empty() {
                            assert(names@ =~= Map::empty());
                        }
                    }
                    if !empty {
                        return Err(Status::DirectoryNotEmpty);
                    }
                },
            }
        }
        context.delete_on_cleanup = delete;
        Ok(())
    }

    /// Writes into a file; how much was written is given back. A file that is not there yet, or
    /// that cannot be read, is taken as empty.
    pub fn write(
        &mut self,
        context: &LaneFileContext,
        buffer: &[u8],
        offset: usize,
        to_end: bool,
        constrained: bool,
    ) -> (r: Result<usize, Status>)
        requires
            old(self).wf(),
            offset + buffer@.len() <= usize::MAX,
            to_end ==> base_len(old(self)@, context.path@) + buffer@.len() <= usize::MAX,
        ensures
            final(self).wf(),
            (match r {
                Ok(n) => Ok((final(self)@, n as nat)),
                Err(status) => Err(status),
            }) == match context.kind {
                NodeKind::Directory => Err::<(MountView, nat), Status>(Status::FileIsADirectory),
                NodeKind::File => written(
                    old(self)@,
                    context.path@,
                    buffer@,
                    offset as nat,
                    to_end,
                    constrained,
                ),
            },
            r is Err ==> final(self)@ == old(self)@,
    {
        match ensure_file(context.kind) {
            Err(status) => {
                return Err(status);
            },
            Ok(()) => {},
        }
        let path = context.path.as_str();
        let mut bytes: Vec<u8> = match self.read_file(path) {
            Ok(bytes) => bytes,
            Err(_) => Vec::new(),
        };
        assert(bytes@ =~= base_bytes(self@, path@));
        let at: usize = if to_end {
            bytes.len()
        } else {
            offset
        };
        if constrained && at > bytes.len() {
            return Ok(0);
        }
        edit::stretch(&mut bytes, at + buffer.len());
        assert(buffer@.subrange(0, buffer@.len() as int) =~= buffer@);
        edit::overwrite(&mut bytes, at, buffer, buffer.len());
        match self.write_file(path, bytes) {
            Err(status) => Err(status),
            Ok(()) => Ok(buffer.len()),
        }
    }

    /// Gives a file another length.
    pub fn set_file_size(&mut self, context: &LaneFileContext, size: usize) -> (r: Result<
        (),
        Status,
    >)
        requires
            old(self).wf(),
        ensures
            final(self).wf(),
            mount_result(r, final(self)@) == match context.kind {
                NodeKind::Directory => Err::<MountView, Status>(Status::FileIsADirectory),
                NodeKind::File => match bytes_at(old(self)@, context.path@) {
                    Err(status) => Err(status),
                    Ok(bytes) => put_at(
                        old(self)@,
                        context.path@,
                        Some(edit::resized(bytes, size as nat)),
                    ),
                },
            },
            r is Err ==> final(self)@ == old(self)@,
    {
        match ensure_file(context.kind) {
            Err(status) => {
                return Err(status);
            },
            Ok(()) => {},
        }
        let path = context.path.as_str();
        match self.read_file(path) {
            Err(status) => Err(status),
            Ok(bytes) => {
                let mut bytes = bytes;
                edit::resize(&mut bytes, size);
                self.write_file(path, bytes)
            },
        }
    }
}

/// What opening a name gives: a path and what is there, or why not.
pub open spec fn opened(
    mount: MountView,
    disk: Map<Seq<char>, Names>,
    name: Seq<char>,
    options: u32,
) -> Result<(Seq<char>, NodeKind), Status> {
    let path = nodes::view_label(name);
    if types::rooted_at(path, ".lane"@) {
        Err(Status::NameNotFound)
    } else {
        match kind_at(mount, disk, path) {
            Err(status) => Err(status),
            Ok(kind) => match wrong_kind(kind, options) {
                Some(status) => Err(status),
                None => Ok((path, kind)),
            },
        }
    }
}

/// The bytes from `from` on and before `to`, as far as there are any.
pub open spec fn bytes_between(bytes: Seq<u8>, from: int, to: int) -> Seq<u8> {
    if from >= bytes.len() {
        Seq::empty()
    } else if to < bytes.len() {
        bytes.subrange(from, to)
    } else {
        bytes.subrange(from, bytes.len() as int)
    }
}

/// Why a node cannot be marked for deletion.
pub open spec fn cannot_mark(
    mount: MountView,
    disk: Map<Seq<char>, Names>,
    path: Seq<char>,
    kind: NodeKind,
    delete: bool,
) -> Option<Status> {
    if delete && kind == NodeKind::Directory {
        match names_in(mount, disk, path) {
            Err(status) => Some(status),
            Ok(names) => if names.dom() == Set::<Seq<char>>::empty() {
                None
            } else {
                Some(Status::DirectoryNotEmpty)
            },
        }
    } else {
        None
    }
}

/// The view of the rows of a directory.
pub open spec fn dir_rows_view(rows: Seq<(String, NodeKind, u64)>) -> Seq<
    (Seq<char>, NodeKind, u64),
> {
    Seq::new(rows.len(), |i: int| (rows[i].0@, rows[i].1, rows[i].2))
}

/// The kind and the size that a directory shows for a name in it.
pub open spec fn shown_row(
    mount: MountView,
    dir: Seq<char>,
    name: Seq<char>,
    kind: DirEntryKind,
) -> Result<(NodeKind, u64), Status> {
    match kind {
        DirEntryKind::Directory => Ok((NodeKind::Directory, 0)),
        DirEntryKind::File => match vfs::fs_read(mount.fs, mount.lane, vfs::child_of(dir, name)) {
            Err(error) => Err(fs_fault(error)),
            Ok(None) => Ok((NodeKind::File, 0)),
            Ok(Some(bytes)) => Ok((NodeKind::File, bytes.len() as u64)),
        },
    }
}

/// The rows that a directory shows for some of its names.
pub open spec fn rows_of(
    mount: MountView,
    dir: Seq<char>,
    names: Map<Seq<char>, DirEntryKind>,
    keys: Seq<Seq<char>>,
) -> Result<Seq<(Seq<char>, NodeKind, u64)>, Status>
    decreases keys.len(),
{
    if keys.len() == 0 {
        Ok(Seq::empty())
    } else {
        match rows_of(mount, dir, names, keys.drop_last()) {
            Err(status) => Err(status),
            Ok(rows) => match shown_row(mount, dir, keys.last(), names[keys.last()]) {
                Err(status) => Err(status),
                Ok((kind, size)) => Ok(rows.push((keys.last(), kind, size))),
            },
        }
    }
}

proof fn lemma_rows_error(
    mount: MountView,
    dir: Seq<char>,
    names: Map<Seq<char>, DirEntryKind>,
    keys: Seq<Seq<char>>,
    n: int,
)
    requires
        0 <= n <= keys.len(),
        rows_of(mount, dir, names, keys.subrange(0, n)) is Err,
    ensures
        rows_of(mount, dir, names, keys) == rows_of(mount, dir, names, keys.subrange(0, n)),
    decreases keys.len() - n,
{
    if n == keys.len() {
        assert(keys.subrange(0, n) =~= keys);
    } else {
        assert(keys.subrange(0, n + 1).drop_last() =~= keys.subrange(0, n));
        lemma_rows_error(mount, dir, names, keys, n + 1);
    }
}

/// What an open directory shows, by name.
pub open spec fn directory_read(
    mount: MountView,
    disk: Map<Seq<char>, Names>,
    path: Seq<char>,
    kind: NodeKind,
) -> Result<Seq<(Seq<char>, NodeKind, u64)>, Status> {
    match kind {
        NodeKind::File => Err(Status::NotADirectory),
        NodeKind::Directory => match names_in(mount, disk, path) {
            Err(status) => Err(status),
            Ok(names) => rows_of(mount, path, names, text_map::listing(names.dom())),
        },
    }
}

/// The mount after a node was created, with its path, or why it was not.
pub open spec fn created(
    mount: MountView,
    disk: Map<Seq<char>, Names>,
    name: Seq<char>,
    directory: bool,
) -> Result<(MountView, Seq<char>), Status> {
    let path = nodes::view_label(name);
    if types::rooted_at(path, ".lane"@) {
        Err(Status::NameNotFound)
    } else if kind_at(mount, disk, path) is Ok {
        Err(Status::NameCollision)
    } else {
        match parent_fault(mount, disk, path) {
            Some(status) => Err(status),
            None => if directory {
                Ok(
                    (
                        MountView { created_dirs: mount.created_dirs.insert(path), ..mount },
                        path,
                    ),
                )
            } else {
                match put_at(mount, path, Some(Seq::empty())) {
                    Err(status) => Err(status),
                    Ok(after) => Ok((after, path)),
                }
            },
        }
    }
}

/// The mount after a file was renamed, and why it was not, or not wholly.
pub open spec fn renamed(
    mount: MountView,
    disk: Map<Seq<char>, Names>,
    from: Seq<char>,
    name: Seq<char>,
    replace: bool,
) -> (MountView, Option<Status>) {
    let to = nodes::view_label(name);
    if types::rooted_at(to, ".lane"@) {
        (mount, Some(Status::NameNotFound))
    } else if !replace && kind_at(mount, disk, to) is Ok {
        (mount, Some(Status::NameCollision))
    } else {
        match parent_fault(mount, disk, to) {
            Some(status) => (mount, Some(status)),
            None => match bytes_at(mount, from) {
                Err(status) => (mount, Some(status)),
                Ok(bytes) => match put_at(mount, to, Some(bytes)) {
                    Err(status) => (mount, Some(status)),
                    Ok(moved) => match put_at(moved, from, None) {
                        Err(status) => (moved, Some(status)),
                        Ok(after) => (after, None),
                    },
                },
            },
        }
    }
}

/// The bytes that a write starts from.
pub open spec fn base_bytes(mount: MountView, path: Seq<char>) -> Seq<u8> {
    match bytes_at(mount, path) {
        Ok(bytes) => bytes,
        Err(_) => Seq::empty(),
    }
}

/// The length that a write starts from.
pub open spec fn base_len(mount: MountView, path: Seq<char>) -> nat {
    base_bytes(mount, path).len()
}

/// The mount after a write, with how much was written, or why it failed.
pub open spec fn written(
    mount: MountView,
    path: Seq<char>,
    buffer: Seq<u8>,
    offset: nat,
    to_end: bool,
    constrained: bool,
) -> Result<(MountView, nat), Status> {
    let bytes = base_bytes(mount, path);
    let at = if to_end {
        bytes.len()
    } else {
        offset
    };
    match written_bytes(bytes, buffer, at, constrained) {
        None => Ok((mount, 0)),
        Some(after) => match put_at(mount, path, Some(after)) {
            Err(status) => Err(status),
            Ok(after) => Ok((after, buffer.len())),
        },
    }
}

// Keeping what was written.

/// The stored file tree after the lane was given what the mount shows at some paths, and why not
/// at all of them.
pub open spec fn merged_at(latest: Fs, mount: MountView, paths: Seq<Seq<char>>) -> (
    Fs,
    Option<Status>,
)
    decreases paths.len(),
{
    if paths.len() == 0 {
        (latest, None)
    } else {
        let before = merged_at(latest, mount, paths.drop_last());
        if before.1 is Some {
            before
        } else {
            match vfs::fs_read(mount.fs, mount.lane, paths.last()) {
                Err(error) => (before.0, Some(fs_fault(error))),
                Ok(content) => match vfs::fs_replace(
                    before.0,
                    mount.lane,
                    paths.last(),
                    content,
                ) {
                    Err(error) => (before.0, Some(fs_fault(error))),
                    Ok(after) => (after, None),
                },
            }
        }
    }
}

proof fn lemma_merged_error(latest: Fs, mount: MountView, paths: Seq<Seq<char>>, n: int)
    requires
        0 <= n <= paths.len(),
        merged_at(latest, mount, paths.subrange(0, n)).1 is Some,
    ensures
        merged_at(latest, mount, paths) == merged_at(latest, mount, paths.subrange(0, n)),
    decreases paths.len() - n,
{
    if n == paths.len() {
        assert(paths.subrange(0, n) =~= paths);
    } else {
        assert(paths.subrange(0, n + 1).drop_last() =~= paths.subrange(0, n));
        lemma_merged_error(latest, mount, paths, n + 1);
    }
}

/// The paths at which the mount or the stored lane has an overlay.
pub open spec fn overlay_union(latest: Fs, mount: MountView) -> Set<Seq<char>> {
    repo::overlay_listing(latest.repo, mount.lane).to_set().union(
        repo::overlay_listing(mount.fs.repo, mount.lane).to_set(),
    )
}

/// The stored file tree after the lane was given what the mount shows, and why not all of it.
pub open spec fn merged(latest: Fs, mount: MountView) -> (Fs, Option<Status>) {
    match types::parsed_lane(mount.lane) {
        Err(error) => (latest, Some(lane_fault(error))),
        Ok(_) => {
            let there = Fs {
                repo: Repo { lanes: latest.repo.lanes.insert(mount.lane), ..latest.repo },
                ..latest
            };
            if !mount.fs.repo.lanes.contains(mount.lane) {
                (there, Some(Status::NameNotFound))
            } else {
                merged_at(
                    there,
                    mount,
                    text_map::listing(overlay_union(there, mount)),
                )
            }
        },
    }
}

fn set_of(list: &Vec<String>) -> (r: TextMap<()>)
    ensures
        r.wf(),
        r@.dom() == text::texts(list@).to_set(),
{
    let ghost names = text::texts(list@);
    let mut set: TextMap<()> = TextMap::new();
    let mut i: usize = 0;
    while i < list.len()
        invariant
            i <= list@.len(),
            names == text::texts(list@),
            set.wf(),
            forall|k: Seq<char>| #[trigger] set@.contains_key(k) ==> names.contains(k),
            forall|m: int| 0 <= m < i ==> set@.contains_key(#[trigger] names[m]),
        decreases list@.len() - i,
    {
        assert(names[i as int] == list@[i as int]@);
        let _ = set.insert(list[i].clone(), ());
        i = i + 1;
    }
    proof {
        assert forall|k: Seq<char>| names.contains(k) implies #[trigger] set@.contains_key(k) by {
            let m = choose|m: int| 0 <= m < names.len() && names[m] == k;
            assert(set@.contains_key(names[m]));
        }
        assert(set@.dom() =~= names.to_set());
    }
    set
}

/// Giving a lane content at a path changes nothing that other lanes see, and nothing at paths with
/// another normal form.
proof fn lemma_replace_is_local(
    fs: Fs,
    lane: Seq<char>,
    raw: Seq<char>,
    content: Option<Seq<u8>>,
    other: Seq<char>,
    path: Seq<char>,
)
    requires
        repo::repo_ok(fs.repo),
        vfs::fs_replace(fs, lane, raw, content) is Ok,
        other != lane || vfs::repo_path(path) != vfs::repo_path(raw),
    ensures
        vfs::fs_read(vfs::fs_replace(fs, lane, raw, content)->Ok_0, other, path) == vfs::fs_read(
            fs,
            other,
            path,
        ),
{
    if vfs::repo_path(path) is Ok {
        let label = vfs::repo_path(path)->Ok_0;
        let changed = vfs::repo_path(raw)->Ok_0;
        laws::law_lanes_are_isolated(
            fs.repo,
            changed,
            lane,
            vfs::base_at(fs.files, changed),
            content,
            label,
            other,
            vfs::base_at(fs.files, label),
        );
    }
}

/// Whether a stored lane shows at a path what the mount shows.
spec fn shows_same(latest: Fs, mount: MountView, path: Seq<char>) -> bool {
    vfs::fs_read(latest, mount.lane, path) == vfs::fs_read(mount.fs, mount.lane, path)
}

/// Paths that are in normal form.
pub open spec fn all_normal(paths: Set<Seq<char>>) -> bool {
    forall|p: Seq<char>| #[trigger]
        paths.contains(p) ==> vfs::repo_path(p) == Ok::<Seq<char>, LaneFsErrorView>(p)
}

impl LaneMount {
    /// Gives the stored lane what the mount shows: at every path at which either had an overlay the
    /// stored lane then shows what the mount shows. Other lanes see what they saw.
    pub fn merge_into(&self, latest: &mut LaneFs) -> (r: Result<(), Status>)
        requires
            self.wf(),
            old(latest).wf(),
        ensures
            final(latest).wf(),
            (final(latest)@, handles::status_of(r)) == merged(old(latest)@, self@),
            r is Ok && all_normal(overlay_union(old(latest)@, self@)) ==> forall|p: Seq<char>|
                overlay_union(old(latest)@, self@).contains(p) ==> #[trigger] vfs::fs_read(
                    final(latest)@,
                    self@.lane,
                    p,
                ) == vfs::fs_read(self@.fs, self@.lane, p),
            forall|k: Seq<char>, p: Seq<char>|
                k != self@.lane ==> #[trigger] vfs::fs_read(final(latest)@, k, p) == vfs::fs_read(
                    old(latest)@,
                    k,
                    p,
                ),
    {
        match latest.create_lane(self.lane.as_str()) {
            Err(error) => {
                return Err(map_fs_error(&error));
            },
            Ok(_) => {},
        }
        let ghost there = latest@;
        let stored = match latest.changed_paths(self.lane.as_str()) {
            Err(error) => {
                return Err(map_fs_error(&error));
            },
            Ok(paths) => paths,
        };
        let shown = match self.fs.changed_paths(self.lane.as_str()) {
            Err(error) => {
                return Err(map_fs_error(&error));
            },
            Ok(paths) => paths,
        };
        let mut paths = set_of(&stored);
        add_names(&mut paths, &set_of(&shown));
        let ghost keys = paths.keys();
        let mut i: usize = 0;
        proof {
            paths.lemma_wf();
            assert(paths@.dom() =~= overlay_union(there, self@));
            assert(overlay_union(there, self@) =~= overlay_union(old(latest)@, self@));
            assert(keys.subrange(0, 0) =~= Seq::empty());
            assert forall|k: Seq<char>, p: Seq<char>|
                k != self@.lane implies #[trigger] vfs::fs_read(latest@, k, p) == vfs::fs_read(
                old(latest)@,
                k,
                p,
            ) by {
                assert(there.repo.lanes.contains(k) == old(latest)@.repo.lanes.contains(k));
            }
        }
        let ghost union = overlay_union(there, self@);
        while i < paths.len()
            invariant
                i <= paths.pairs().len(),
                self.wf(),
                latest.wf(),
                keys == paths.keys(),
                keys == text_map::listing(overlay_union(there, self@)),
                self@.fs.repo.lanes.contains(self@.lane),
                types::user_lane(self@.lane),
                there == (Fs {
                    repo: Repo {
                        lanes: old(latest)@.repo.lanes.insert(self@.lane),
                        ..old(latest)@.repo
                    },
                    ..old(latest)@
                }),
                merged_at(there, self@, keys.subrange(0, i as int)) == (latest@, None::<Status>),
                union == overlay_union(there, self@),
                text_map::is_listing(keys, union),
                all_normal(union) ==> forall|j: int|
                    0 <= j < i ==> #[trigger] shows_same(latest@, self@, keys[j]),
                forall|k: Seq<char>, p: Seq<char>|
                    k != self@.lane ==> #[trigger] vfs::fs_read(latest@, k, p) == vfs::fs_read(
                        old(latest)@,
                        k,
                        p,
                    ),
            decreases paths.pairs().len() - i,
        {
            let path = paths.key_at(i);
            let ghost before = latest@;
            proof {
                assert(keys.subrange(0, i + 1).drop_last() =~= keys.subrange(0, i as int));
                assert(keys.subrange(0, i + 1).last() == path@);
            }
            proof {
                latest.lemma_wf();
            }
            let outcome = match self.fs.read_file(self.lane.as_str(), path) {
                Err(error) => Err(error),
                Ok(Some(bytes)) => latest.write_file(self.lane.as_str(), path, bytes),
                Ok(None) => latest.delete_file(self.lane.as_str(), path),
            };
            match outcome {
                Err(error) => {
                    proof {
                        lemma_merged_error(there, self@, keys, i + 1);
                    }
                    return Err(map_fs_error(&error));
                },
                Ok(()) => {
                    proof {
                        let content = vfs::fs_read(self@.fs, self@.lane, path@)->Ok_0;
                        assert(vfs::fs_replace(before, self@.lane, path@, content) == Ok::<
                            Fs,
                            LaneFsErrorView,
                        >(latest@));
                        assert(shows_same(latest@, self@, keys[i as int]));
                        if all_normal(union) {
                            assert(keys.contains(keys[i as int]));
                            assert forall|j: int| 0 <= j < i implies #[trigger] shows_same(
                                latest@,
                                self@,
                                keys[j],
                            ) by {
                                assert(shows_same(before, self@, keys[j]));
                                assert(text::text_lt(keys[j], keys[i as int]));
                                text::lemma_text_lt_irreflexive(path@);
                                assert(keys.contains(keys[j]));
                                lemma_replace_is_local(
                                    before,
                                    self@.lane,
                                    path@,
                                    content,
                                    self@.lane,
                                    keys[j],
                                );
                            }
                        }
                        assert forall|k: Seq<char>, p: Seq<char>|
                            k != self@.lane implies #[trigger] vfs::fs_read(latest@, k, p)
                            == vfs::fs_read(old(latest)@, k, p) by {
                            lemma_replace_is_local(before, self@.lane, path@, content, k, p);
                            assert(vfs::fs_read(before, k, p) == vfs::fs_read(old(latest)@, k, p));
                        }
                    }
                },
            }
            i = i + 1;
        }
        proof {
            assert(keys.subrange(0, i as int) =~= keys);
            if all_normal(union) {
                assert forall|p: Seq<char>| union.contains(p) implies #[trigger] vfs::fs_read(
                    latest@,
                    self@.lane,
                    p,
                ) == vfs::fs_read(self@.fs, self@.lane, p) by {
                    assert(keys.contains(p));
                    let j = choose|j: int| 0 <= j < keys.len() && keys[j] == p;
                    assert(shows_same(latest@, self@, keys[j]));
                }
            }
        }
        Ok(())
    }
}

} // verus!
