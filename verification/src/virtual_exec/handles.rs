//! Requests of the system on a mounted view.
use vstd::prelude::*;

use crate::sorting;
use crate::text;
use crate::text::{text_order, TextOrder};
use crate::text_map;
use crate::types;
use crate::virtual_exec::dirty;
use crate::virtual_exec::dirty::DirtyEntryView;
use crate::virtual_exec::edit;
use crate::virtual_exec::edit::WriteMode;
use crate::virtual_exec::nodes;
use crate::virtual_exec::nodes::{
    child_path_of, ensure_mutable_path, path_from_name, rename_target_path, NodeView, Status,
    VirtualNode,
};
use crate::virtual_exec::state;
use crate::virtual_exec::state::{DiskTree, Names, ViewState, VirtualLaneState};

verus! {

/// An open file or directory.
#[derive(Debug, PartialEq, Eq)]
pub struct VirtualFileHandle {
    pub path: String,
    pub is_dir: bool,
    pub version: u64,
    pub delete_on_close: bool,
}

/// A [`VirtualFileHandle`] as a mathematical value.
#[verifier::ext_equal]
pub struct HandleView {
    pub path: Seq<char>,
    pub is_dir: bool,
    pub version: u64,
    pub delete_on_close: bool,
}

impl View for VirtualFileHandle {
    type V = HandleView;

    open spec fn view(&self) -> HandleView {
        HandleView {
            path: self.path@,
            is_dir: self.is_dir,
            version: self.version,
            delete_on_close: self.delete_on_close,
        }
    }
}

/// A handle that was just opened.
pub open spec fn opened(path: Seq<char>, is_dir: bool, version: u64) -> HandleView {
    HandleView { path, is_dir, version, delete_on_close: false }
}

/// Why a path must not be changed.
pub open spec fn immutable(path: Seq<char>) -> bool {
    types::rooted_at(path, ".git"@)
}

/// The node that a name stands for.
pub open spec fn named_node(view: ViewState, disk: Map<Seq<char>, Names>, name: Seq<char>) -> Result<
    NodeView,
    Status,
> {
    match nodes::named_path(name) {
        Err(status) => Err(status),
        Ok(path) => known_node(view, disk, path),
    }
}

/// The node at a path that should show one.
pub open spec fn known_node(view: ViewState, disk: Map<Seq<char>, Names>, path: Seq<char>) -> Result<
    NodeView,
    Status,
> {
    match state::node_at(view, disk, path) {
        Err(status) => Err(status),
        Ok(None) => Err(Status::NameNotFound),
        Ok(Some(node)) => Ok(node),
    }
}

/// The view of a node or a status.
pub open spec fn found_result(r: Result<VirtualNode, Status>) -> Result<NodeView, Status> {
    match r {
        Ok(node) => Ok(node@),
        Err(status) => Err(status),
    }
}

/// The view of a handle with its node or a status.
pub open spec fn open_result(r: Result<(VirtualFileHandle, VirtualNode), Status>) -> Result<
    (HandleView, NodeView),
    Status,
> {
    match r {
        Ok((handle, node)) => Ok((handle@, node@)),
        Err(status) => Err(status),
    }
}

/// What creating a node gives: the view after it, the handle and the node, or why it fails.
pub open spec fn created(
    view: ViewState,
    disk: Map<Seq<char>, Names>,
    name: Seq<char>,
    directory: bool,
) -> Result<(ViewState, HandleView, NodeView), Status> {
    match nodes::named_path(name) {
        Err(status) => Err(status),
        Ok(path) => if immutable(path) {
            Err(Status::AccessDenied)
        } else {
            match state::node_at(view, disk, path) {
                Err(status) => Err(status),
                Ok(Some(_)) => Err(Status::NameCollision),
                Ok(None) => if directory {
                    Ok(
                        (
                            state::with_entry(view, path, DirtyEntryView::Directory),
                            opened(path, true, view.next_version),
                            NodeView::Directory(path),
                        ),
                    )
                } else {
                    Ok(
                        (
                            state::with_entry(view, path, DirtyEntryView::File(Seq::empty())),
                            opened(path, false, view.next_version),
                            NodeView::File(path, 0),
                        ),
                    )
                },
            }
        },
    }
}

/// What opening a node gives.
pub open spec fn opened_node(
    view: ViewState,
    disk: Map<Seq<char>, Names>,
    name: Seq<char>,
    want_directory: bool,
    want_file: bool,
) -> Result<(HandleView, NodeView), Status> {
    match nodes::named_path(name) {
        Err(status) => Err(status),
        Ok(path) => match known_node(view, disk, path) {
            Err(status) => Err(status),
            Ok(node) => if want_directory && !(node is Directory) {
                Err(Status::NotADirectory)
            } else if want_file && node is Directory {
                Err(Status::FileIsADirectory)
            } else {
                Ok(
                    (
                        opened(
                            path,
                            node is Directory,
                            dirty::version_of(view.versions, path),
                        ),
                        node,
                    ),
                )
            },
        },
    }
}

/// What a write through a handle gives: the view and the handle after it, and the new length.
pub open spec fn written_through(
    view: ViewState,
    handle: HandleView,
    bytes: Result<Seq<u8>, Status>,
) -> Result<(ViewState, HandleView, nat), Status> {
    if handle.is_dir {
        Err(Status::FileIsADirectory)
    } else if immutable(handle.path) {
        Err(Status::AccessDenied)
    } else {
        match edit::after_write(view, handle.path, bytes) {
            Err(status) => Err(status),
            Ok((after, len, version)) => Ok((after, HandleView { version, ..handle }, len)),
        }
    }
}

/// The view of a write through a handle, with the state and the handle that it left.
pub open spec fn through_result(r: Result<u64, Status>, view: ViewState, handle: HandleView) -> Result<
    (ViewState, HandleView, nat),
    Status,
> {
    match r {
        Ok(len) => Ok((view, handle, len as nat)),
        Err(status) => Err(status),
    }
}

/// Zeros.
pub open spec fn zeros(len: nat) -> Seq<u8> {
    Seq::new(len, |i: int| 0u8)
}

/// A part of a file: at most so many bytes from an offset on.
pub open spec fn part_of(bytes: Seq<u8>, offset: nat, len: nat) -> Seq<u8> {
    if offset >= bytes.len() {
        Seq::empty()
    } else if offset + len < bytes.len() {
        bytes.subrange(offset as int, (offset + len) as int)
    } else {
        bytes.subrange(offset as int, bytes.len() as int)
    }
}

/// The view and the handle after a rename through it, and why it failed.
pub open spec fn renamed_through(
    view: ViewState,
    disk: Map<Seq<char>, Names>,
    handle: HandleView,
    name: Seq<char>,
    replace: bool,
) -> (ViewState, HandleView, Option<Status>) {
    match nodes::named_path(name) {
        Err(status) => (view, handle, Some(status)),
        Ok(target) => {
            let to = nodes::rename_target(handle.path, target);
            if immutable(handle.path) || immutable(to) {
                (view, handle, Some(Status::AccessDenied))
            } else if handle.is_dir {
                match edit::renamed_dir(view, disk, handle.path, to, replace) {
                    (after, Err(status)) => (after, handle, Some(status)),
                    (after, Ok(version)) => (
                        after,
                        HandleView { path: to, version, ..handle },
                        None,
                    ),
                }
            } else {
                match edit::renamed_file(view, disk, handle.path, to, replace) {
                    Err(status) => (view, handle, Some(status)),
                    Ok((after, version)) => (
                        after,
                        HandleView { path: to, version, ..handle },
                        None,
                    ),
                }
            }
        },
    }
}

/// The view and the handle after it was marked for deletion, or no longer, and why that failed.
pub open spec fn marked(
    view: ViewState,
    disk: Map<Seq<char>, Names>,
    handle: HandleView,
    delete: bool,
) -> (ViewState, HandleView, Option<Status>) {
    if immutable(handle.path) {
        (view, handle, Some(Status::AccessDenied))
    } else if !delete {
        (view, HandleView { delete_on_close: false, ..handle }, None)
    } else {
        let after = if handle.is_dir {
            edit::deleted_dir(view, disk, handle.path)
        } else {
            Ok(state::with_entry(view, handle.path, DirtyEntryView::Deleted))
        };
        match after {
            Err(status) => (view, handle, Some(status)),
            Ok(after) => (
                after,
                HandleView {
                    delete_on_close: true,
                    version: dirty::version_of(after.versions, handle.path),
                    ..handle
                },
                None,
            ),
        }
    }
}

/// The view after a handle was closed. What is marked for deletion goes, unless it was written
/// since.
pub open spec fn cleaned(
    view: ViewState,
    disk: Map<Seq<char>, Names>,
    handle: HandleView,
    delete: bool,
) -> ViewState {
    if !(delete || handle.delete_on_close) || immutable(handle.path) || dirty::version_of(
        view.versions,
        handle.path,
    ) != handle.version {
        view
    } else if handle.is_dir {
        match edit::deleted_dir(view, disk, handle.path) {
            Ok(after) => after,
            Err(_) => view,
        }
    } else {
        state::with_entry(view, handle.path, DirtyEntryView::Deleted)
    }
}

/// The status of a result.
pub open spec fn status_of<T>(r: Result<T, Status>) -> Option<Status> {
    match r {
        Ok(_) => None,
        Err(status) => Some(status),
    }
}

impl VirtualLaneState {
    /// The node at a path that should show one.
    pub fn known_node(&self, disk: &DiskTree, path: &str) -> (r: Result<VirtualNode, Status>)
        requires
            self.wf(),
            disk.wf(),
        ensures
            found_result(r) == known_node(self@, disk@, path@),
    {
        match self.node_for_path(disk, path) {
            Err(status) => Err(status),
            Ok(None) => Err(Status::NameNotFound),
            Ok(Some(node)) => Ok(node),
        }
    }

    /// The node that a name stands for.
    pub fn node_for_name(&self, disk: &DiskTree, name: &str) -> (r: Result<VirtualNode, Status>)
        requires
            self.wf(),
            disk.wf(),
        ensures
            found_result(r) == named_node(self@, disk@, name@),
    {
        match path_from_name(name) {
            Err(status) => Err(status),
            Ok(path) => self.known_node(disk, path.as_str()),
        }
    }

    /// Creates a file or a directory.
    pub fn create(&mut self, disk: &DiskTree, name: &str, directory: bool) -> (r: Result<
        (VirtualFileHandle, VirtualNode),
        Status,
    >)
        requires
            old(self).wf(),
            disk.wf(),
        ensures
            final(self).wf(),
            (match r {
                Ok((handle, node)) => Ok((final(self)@, handle@, node@)),
                Err(status) => Err(status),
            }) == created(old(self)@, disk@, name@, directory),
            r is Err ==> final(self)@ == old(self)@,
    {
        let path = match path_from_name(name) {
            Err(status) => {
                return Err(status);
            },
            Ok(path) => path,
        };
        match ensure_mutable_path(path.as_str()) {
            Err(status) => {
                return Err(status);
            },
            Ok(()) => {},
        }
        match self.node_for_path(disk, path.as_str()) {
            Err(status) => {
                return Err(status);
            },
            Ok(Some(_)) => {
                return Err(Status::NameCollision);
            },
            Ok(None) => {},
        }
        let node_path = path.clone();
        if directory {
            let version: u64 = self.create_dir(path.as_str());
            let handle = VirtualFileHandle { path, is_dir: true, version, delete_on_close: false };
            return Ok((handle, VirtualNode::Directory(node_path)));
        }
        let none: Vec<u8> = Vec::new();
        assert(none@ =~= Seq::empty());
        let version: u64 = self.write_file(path.as_str(), none);
        let handle = VirtualFileHandle { path, is_dir: false, version, delete_on_close: false };
        Ok((handle, VirtualNode::File(node_path, 0)))
    }

    /// Opens a file or a directory.
    pub fn open(&self, disk: &DiskTree, name: &str, want_directory: bool, want_file: bool) -> (r:
        Result<(VirtualFileHandle, VirtualNode), Status>)
        requires
            self.wf(),
            disk.wf(),
        ensures
            open_result(r) == opened_node(self@, disk@, name@, want_directory, want_file),
    {
        let path = match path_from_name(name) {
            Err(status) => {
                return Err(status);
            },
            Ok(path) => path,
        };
        let node = match self.known_node(disk, path.as_str()) {
            Err(status) => {
                return Err(status);
            },
            Ok(node) => node,
        };
        if want_directory && !node.is_dir() {
            return Err(Status::NotADirectory);
        }
        if want_file && node.is_dir() {
            return Err(Status::FileIsADirectory);
        }
        let version: u64 = self.path_version(path.as_str());
        let handle = VirtualFileHandle {
            path,
            is_dir: node.is_dir(),
            version,
            delete_on_close: false,
        };
        Ok((handle, node))
    }

    /// Puts zeros in place of a file.
    pub fn overwrite(&mut self, handle: &mut VirtualFileHandle, size: u64) -> (r: Result<u64, Status>)
        requires
            old(self).wf(),
        ensures
            final(self).wf(),
            through_result(r, final(self)@, final(handle)@) == written_through(
                old(self)@,
                old(handle)@,
                if size > usize::MAX {
                    Err(Status::InvalidParameter)
                } else {
                    Ok(zeros(size as nat))
                },
            ),
            r is Err ==> final(self)@ == old(self)@ && final(handle)@ == old(handle)@,
    {
        if handle.is_dir {
            return Err(Status::FileIsADirectory);
        }
        match ensure_mutable_path(handle.path.as_str()) {
            Err(status) => {
                return Err(status);
            },
            Ok(()) => {},
        }
        if size > usize::MAX as u64 {
            return Err(Status::InvalidParameter);
        }
        let mut bytes: Vec<u8> = Vec::new();
        while bytes.len() < size as usize
            invariant
                bytes@.len() <= size,
                size <= usize::MAX,
                bytes@ == zeros(bytes@.len()),
            decreases size - bytes@.len(),
        {
            bytes.push(0);
            assert(bytes@ =~= zeros(bytes@.len()));
        }
        let version: u64 = self.write_file(handle.path.as_str(), bytes);
        handle.version = version;
        Ok(size)
    }

    /// A part of an open file.
    pub fn read(&self, handle: &VirtualFileHandle, offset: u64, len: usize) -> (r: Result<
        Vec<u8>,
        Status,
    >)
        requires
            self.wf(),
        ensures
            state::bytes_result(r) == if handle@.is_dir {
                Err(Status::FileIsADirectory)
            } else {
                match state::file_at(self@, handle@.path) {
                    Err(status) => Err(status),
                    Ok(bytes) => if offset > usize::MAX {
                        Err(Status::InvalidParameter)
                    } else {
                        Ok::<Seq<u8>, Status>(part_of(bytes, offset as nat, len as nat))
                    },
                }
            },
    {
        if handle.is_dir {
            return Err(Status::FileIsADirectory);
        }
        let bytes = match self.read_file(handle.path.as_str()) {
            Err(status) => {
                return Err(status);
            },
            Ok(bytes) => bytes,
        };
        if offset > usize::MAX as u64 {
            return Err(Status::InvalidParameter);
        }
        let start: usize = offset as usize;
        let mut part: Vec<u8> = Vec::new();
        if start >= bytes.len() {
            assert(part@ =~= Seq::empty());
            return Ok(part);
        }
        let end: usize = if len < bytes.len() - start {
            start + len
        } else {
            bytes.len()
        };
        let mut i: usize = start;
        assert(part@ =~= bytes@.subrange(start as int, start as int));
        while i < end
            invariant
                start <= i <= end <= bytes@.len(),
                part@ == bytes@.subrange(start as int, i as int),
            decreases end - i,
        {
            part.push(bytes[i]);
            assert(part@ =~= bytes@.subrange(start as int, i + 1));
            i = i + 1;
        }
        Ok(part)
    }

    /// Writes into an open file; its new length is given back.
    pub fn write(&mut self, handle: &mut VirtualFileHandle, buffer: &[u8], mode: WriteMode) -> (r:
        Result<u64, Status>)
        requires
            old(self).wf(),
        ensures
            final(self).wf(),
            through_result(r, final(self)@, final(handle)@) == written_through(
                old(self)@,
                old(handle)@,
                edit::written_at(old(self)@, old(handle)@.path, buffer@, mode),
            ),
            r is Err ==> final(self)@ == old(self)@ && final(handle)@ == old(handle)@,
    {
        if handle.is_dir {
            return Err(Status::FileIsADirectory);
        }
        match ensure_mutable_path(handle.path.as_str()) {
            Err(status) => {
                return Err(status);
            },
            Ok(()) => {},
        }
        match self.write_file_range(handle.path.as_str(), buffer, mode) {
            Err(status) => Err(status),
            Ok((len, version)) => {
                handle.version = version;
                Ok(len as u64)
            },
        }
    }

    /// Gives an open file another length.
    pub fn set_file_size(&mut self, handle: &mut VirtualFileHandle, size: u64) -> (r: Result<
        u64,
        Status,
    >)
        requires
            old(self).wf(),
        ensures
            final(self).wf(),
            through_result(r, final(self)@, final(handle)@) == written_through(
                old(self)@,
                old(handle)@,
                if size > usize::MAX {
                    Err(Status::InvalidParameter)
                } else {
                    edit::resized_at(old(self)@, old(handle)@.path, size as nat)
                },
            ),
            r is Err ==> final(self)@ == old(self)@ && final(handle)@ == old(handle)@,
    {
        if handle.is_dir {
            return Err(Status::FileIsADirectory);
        }
        match ensure_mutable_path(handle.path.as_str()) {
            Err(status) => {
                return Err(status);
            },
            Ok(()) => {},
        }
        if size > usize::MAX as u64 {
            return Err(Status::InvalidParameter);
        }
        match self.resize_file(handle.path.as_str(), size as usize) {
            Err(status) => Err(status),
            Ok((len, version)) => {
                handle.version = version;
                Ok(len as u64)
            },
        }
    }

    /// Renames an open file or directory.
    pub fn rename(
        &mut self,
        disk: &DiskTree,
        handle: &mut VirtualFileHandle,
        name: &str,
        replace: bool,
    ) -> (r: Result<(), Status>)
        requires
            old(self).wf(),
            disk.wf(),
        ensures
            final(self).wf(),
            (final(self)@, final(handle)@, status_of(r)) == renamed_through(
                old(self)@,
                disk@,
                old(handle)@,
                name@,
                replace,
            ),
    {
        let target = match path_from_name(name) {
            Err(status) => {
                return Err(status);
            },
            Ok(target) => target,
        };
        let to = rename_target_path(handle.path.as_str(), target.as_str());
        if ensure_mutable_path(handle.path.as_str()).is_err() || ensure_mutable_path(
            to.as_str(),
        ).is_err() {
            return Err(Status::AccessDenied);
        }
        let outcome = if handle.is_dir {
            self.rename_dir(disk, handle.path.as_str(), to.as_str(), replace)
        } else {
            self.rename_file(disk, handle.path.as_str(), to.as_str(), replace)
        };
        match outcome {
            Err(status) => Err(status),
            Ok(version) => {
                handle.path = to;
                handle.version = version;
                Ok(())
            },
        }
    }

    /// Marks an open file or directory for deletion, or no longer.
    pub fn set_delete(
        &mut self,
        disk: &DiskTree,
        handle: &mut VirtualFileHandle,
        delete: bool,
    ) -> (r: Result<(), Status>)
        requires
            old(self).wf(),
            disk.wf(),
        ensures
            final(self).wf(),
            (final(self)@, final(handle)@, status_of(r)) == marked(
                old(self)@,
                disk@,
                old(handle)@,
                delete,
            ),
    {
        match ensure_mutable_path(handle.path.as_str()) {
            Err(status) => {
                return Err(status);
            },
            Ok(()) => {},
        }
        if delete {
            if handle.is_dir {
                match self.delete_dir(disk, handle.path.as_str()) {
                    Err(status) => {
                        return Err(status);
                    },
                    Ok(()) => {},
                }
            } else {
                self.delete_file(handle.path.as_str());
            }
            handle.version = self.path_version(handle.path.as_str());
        }
        handle.delete_on_close = delete;
        Ok(())
    }

    /// Closes a file or a directory.
    pub fn cleanup(&mut self, disk: &DiskTree, handle: &VirtualFileHandle, delete: bool)
        requires
            old(self).wf(),
            disk.wf(),
        ensures
            final(self).wf(),
            final(self)@ == cleaned(old(self)@, disk@, handle@, delete),
    {
        if !(delete || handle.delete_on_close) {
            return;
        }
        if ensure_mutable_path(handle.path.as_str()).is_err() {
            return;
        }
        if handle.is_dir {
            let _ = self.delete_dir_if_current(disk, handle.path.as_str(), handle.version);
        } else {
            self.delete_file_if_current(handle.path.as_str(), handle.version);
        }
    }

    /// Whether an open file or directory may be deleted under a name.
    pub fn can_delete(&self, handle: &VirtualFileHandle, name: &str) -> (r: Result<(), Status>)
        ensures
            status_of(r) == if immutable(handle@.path) {
                Some(Status::AccessDenied)
            } else {
                match nodes::named_path(name@) {
                    Err(status) => Some(status),
                    Ok(path) => if immutable(path) {
                        Some(Status::AccessDenied)
                    } else {
                        None::<Status>
                    },
                }
            },
    {
        match ensure_mutable_path(handle.path.as_str()) {
            Err(status) => {
                return Err(status);
            },
            Ok(()) => {},
        }
        match path_from_name(name) {
            Err(status) => Err(status),
            Ok(path) => ensure_mutable_path(path.as_str()),
        }
    }

    /// The node under a name in an open directory.
    pub fn node_in_dir(&self, disk: &DiskTree, handle: &VirtualFileHandle, name: &str) -> (r: Result<
        VirtualNode,
        Status,
    >)
        requires
            self.wf(),
            disk.wf(),
        ensures
            found_result(r) == if !handle@.is_dir {
                Err(Status::NotADirectory)
            } else {
                match nodes::named_path(name@) {
                    Err(status) => Err::<NodeView, Status>(status),
                    Ok(path) => known_node(
                        self@,
                        disk@,
                        nodes::view_child(handle@.path, path),
                    ),
                }
            },
    {
        if !handle.is_dir {
            return Err(Status::NotADirectory);
        }
        match path_from_name(name) {
            Err(status) => Err(status),
            Ok(path) => self.known_node(
                disk,
                child_path_of(handle.path.as_str(), path.as_str()).as_str(),
            ),
        }
    }

    /// The names of an open directory that come after a marker, in order.
    pub fn read_directory(
        &self,
        disk: &DiskTree,
        handle: &VirtualFileHandle,
        marker: Option<&str>,
    ) -> (r: Result<Vec<DirItem>, Status>)
        requires
            self.wf(),
            disk.wf(),
        ensures
            (match r {
                Ok(list) => Ok(sorting::views(list@)),
                Err(status) => Err(status),
            }) == listed_after(
                self@,
                disk@,
                handle@,
                match marker {
                    Some(marker) => Some(marker@),
                    None => None,
                },
            ),
    {
        if !handle.is_dir {
            return Err(Status::NotADirectory);
        }
        let entries = match self.dir_entries(disk, handle.path.as_str()) {
            Err(status) => {
                return Err(status);
            },
            Ok(entries) => entries,
        };
        let ghost shown = state::node_map(entries@);
        let ghost names = entries.keys();
        let ghost mark = match marker {
            Some(marker) => Some(marker@),
            None => None,
        };
        let ghost late = |name: Seq<char>| comes_after(name, mark);
        let ghost item = |name: Seq<char>| (name, shown[name]);
        let mut out: Vec<DirItem> = Vec::new();
        let mut i: usize = 0;
        proof {
            entries.lemma_wf();
            assert(shown.dom() =~= entries@.dom());
            reveal(Seq::filter);
            assert(sorting::views(out@) =~= names.subrange(0, 0).filter(late).map_values(item));
        }
        while i < entries.len()
            invariant
                i <= entries.pairs().len(),
                entries.wf(),
                shown == state::node_map(entries@),
                names == entries.keys(),
                mark == match marker {
                    Some(marker) => Some(marker@),
                    None => None,
                },
                late == (|name: Seq<char>| comes_after(name, mark)),
                item == (|name: Seq<char>| (name, shown[name])),
                sorting::views(out@) == names.subrange(0, i as int).filter(late).map_values(item),
            decreases entries.pairs().len() - i,
        {
            let name = entries.key_at(i);
            let node = entries.value_at(i);
            let ghost before = sorting::views(out@);
            let ghost kept = names.subrange(0, i as int).filter(late);
            proof {
                entries.lemma_wf();
                assert(entries@.contains_key(entries.pairs()[i as int].0));
                assert(shown[name@] == node@);
                reveal(Seq::filter);
                assert(names.subrange(0, i + 1).drop_last() =~= names.subrange(0, i as int));
                assert(names.subrange(0, i + 1).last() == name@);
                if let Some(m) = mark {
                    text::lemma_text_lt_irreflexive(name@);
                    text::lemma_text_lt_total(name@, m);
                    if text::text_lt(name@, m) && text::text_lt(m, name@) {
                        text::lemma_text_lt_transitive(name@, m, name@);
                    }
                }
            }
            let after = match marker {
                None => true,
                Some(marker) => match text_order(marker, name) {
                    TextOrder::Before => true,
                    _ => false,
                },
            };
            if after {
                out.push(DirItem { name: name.to_owned(), node: copy_node(node) });
                proof {
                    assert(sorting::views(out@) =~= before.push((name@, node@)));
                    assert(kept.push(name@).map_values(item) =~= kept.map_values(item).push(
                        item(name@),
                    ));
                }
            }
            i = i + 1;
        }
        assert(names.subrange(0, i as int) =~= names);
        Ok(out)
    }
}

/// A name of a directory with its node.
#[derive(Debug, PartialEq, Eq)]
pub struct DirItem {
    pub name: String,
    pub node: VirtualNode,
}

impl View for DirItem {
    type V = (Seq<char>, NodeView);

    open spec fn view(&self) -> (Seq<char>, NodeView) {
        (self.name@, self.node@)
    }
}

/// Whether a name comes after a marker.
pub open spec fn comes_after(name: Seq<char>, marker: Option<Seq<char>>) -> bool {
    marker matches Some(marker) ==> text::text_lt(marker, name)
}

/// The names of a directory that come after a marker, in order.
pub open spec fn listed_after(
    view: ViewState,
    disk: Map<Seq<char>, Names>,
    handle: HandleView,
    marker: Option<Seq<char>>,
) -> Result<Seq<(Seq<char>, NodeView)>, Status> {
    if !handle.is_dir {
        Err(Status::NotADirectory)
    } else {
        match state::dir_at(view, disk, handle.path) {
            Err(status) => Err(status),
            Ok(entries) => Ok(
                text_map::listing(entries.dom()).filter(
                    |name: Seq<char>| comes_after(name, marker),
                ).map_values(|name: Seq<char>| (name, entries[name])),
            ),
        }
    }
}

fn copy_node(node: &VirtualNode) -> (r: VirtualNode)
    ensures
        r@ == node@,
{
    match node {
        VirtualNode::File(path, len) => VirtualNode::File(path.clone(), *len),
        VirtualNode::Directory(path) => VirtualNode::Directory(path.clone()),
    }
}

} // verus!
