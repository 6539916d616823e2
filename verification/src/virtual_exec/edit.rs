//! Changes to a mounted view.
use vstd::prelude::*;

use crate::repo;
use crate::sorting;
use crate::text;
use crate::text::{chars_of, eq_ignore_ascii_case, strip_prefix, text_begins_with, text_eq};
use crate::text_map;
use crate::text_map::TextMap;
use crate::vfs;
use crate::vfs::DirEntryKind;
use crate::virtual_exec::dirty;
use crate::virtual_exec::dirty::{path_version, DirtyEntry, DirtyEntryView};
use crate::virtual_exec::nodes;
use crate::virtual_exec::nodes::{child_path_of, NodeView, Status};
use crate::virtual_exec::state;
use crate::virtual_exec::state::{DiskTree, Names, ViewState, VirtualLaneState};

verus! {

// Writing.

/// Where a write goes.
#[derive(Clone, Copy, Debug, PartialEq, Eq, Structural)]
pub enum WriteMode {
    /// To an offset; the file grows as needed.
    Normal(u64),
    /// To an offset; the file does not grow.
    Constrained(u64),
    /// To the end of the file.
    ToEnd,
}

/// Bytes with zeros behind them up to a length.
pub open spec fn stretched(bytes: Seq<u8>, len: nat) -> Seq<u8> {
    if len <= bytes.len() {
        bytes
    } else {
        bytes + Seq::new((len - bytes.len()) as nat, |i: int| 0u8)
    }
}

/// Bytes cut off or filled up with zeros to a length.
pub open spec fn resized(bytes: Seq<u8>, len: nat) -> Seq<u8> {
    stretched(bytes, len).subrange(0, len as int)
}

/// Bytes with others in place of some of them.
pub open spec fn overwritten(bytes: Seq<u8>, offset: nat, buffer: Seq<u8>) -> Seq<u8> {
    bytes.subrange(0, offset as int) + buffer + bytes.subrange(
        (offset + buffer.len()) as int,
        bytes.len() as int,
    )
}

/// The bytes of a file after a write.
pub open spec fn written(bytes: Seq<u8>, buffer: Seq<u8>, mode: WriteMode) -> Result<
    Seq<u8>,
    Status,
> {
    let offset = match mode {
        WriteMode::Normal(offset) => offset as nat,
        WriteMode::Constrained(offset) => offset as nat,
        WriteMode::ToEnd => bytes.len(),
    };
    let grown = stretched(bytes, offset);
    if offset > usize::MAX {
        Err(Status::InvalidParameter)
    } else if mode is Constrained {
        let room = (grown.len() - offset) as nat;
        let len = if buffer.len() < room {
            buffer.len()
        } else {
            room
        };
        Ok(overwritten(grown, offset, buffer.subrange(0, len as int)))
    } else if offset + buffer.len() > usize::MAX {
        Err(Status::InvalidParameter)
    } else {
        Ok(overwritten(stretched(grown, offset + buffer.len()), offset, buffer))
    }
}

pub(crate) fn stretch(bytes: &mut Vec<u8>, len: usize)
    ensures
        final(bytes)@ == stretched(old(bytes)@, len as nat),
{
    let ghost start = bytes@;
    assert(start + Seq::new(0, |i: int| 0u8) =~= start);
    while bytes.len() < len
        invariant
            start.len() <= bytes@.len(),
            bytes@.len() <= len || bytes@ == start,
            bytes@ == start + Seq::new((bytes@.len() - start.len()) as nat, |i: int| 0u8),
        decreases len - bytes@.len(),
    {
        let ghost before = bytes@;
        bytes.push(0);
        assert(bytes@ =~= start + Seq::new((bytes@.len() - start.len()) as nat, |i: int| 0u8));
    }
    assert(bytes@ =~= stretched(start, len as nat));
}

pub(crate) fn overwrite(bytes: &mut Vec<u8>, offset: usize, buffer: &[u8], len: usize)
    requires
        len <= buffer@.len(),
        offset + len <= old(bytes)@.len(),
    ensures
        final(bytes)@ == overwritten(
            old(bytes)@,
            offset as nat,
            buffer@.subrange(0, len as int),
        ),
{
    let ghost start = bytes@;
    let total: usize = bytes.len();
    let mut i: usize = 0;
    assert(overwritten(start, offset as nat, buffer@.subrange(0, 0)) =~= start);
    while i < len
        invariant
            i <= len <= buffer@.len(),
            total == start.len(),
            bytes@.len() == start.len(),
            offset + len <= start.len(),
            bytes@ == overwritten(start, offset as nat, buffer@.subrange(0, i as int)),
        decreases len - i,
    {
        bytes.set(offset + i, buffer[i]);
        assert(bytes@ =~= overwritten(start, offset as nat, buffer@.subrange(0, i + 1)));
        i = i + 1;
    }
}

/// The bytes of a file after a write.
pub fn write_range(bytes: Vec<u8>, buffer: &[u8], mode: WriteMode) -> (r: Result<Vec<u8>, Status>)
    ensures
        state::bytes_result(r) == written(bytes@, buffer@, mode),
{
    let mut bytes = bytes;
    let wanted: u64 = match mode {
        WriteMode::Normal(offset) => offset,
        WriteMode::Constrained(offset) => offset,
        WriteMode::ToEnd => bytes.len() as u64,
    };
    if wanted > usize::MAX as u64 {
        return Err(Status::InvalidParameter);
    }
    let offset: usize = wanted as usize;
    stretch(&mut bytes, offset);
    let constrained = match mode {
        WriteMode::Constrained(_) => true,
        _ => false,
    };
    if constrained {
        let room: usize = bytes.len() - offset;
        let len: usize = if buffer.len() < room {
            buffer.len()
        } else {
            room
        };
        overwrite(&mut bytes, offset, buffer, len);
        return Ok(bytes);
    }
    if buffer.len() > usize::MAX - offset {
        return Err(Status::InvalidParameter);
    }
    stretch(&mut bytes, offset + buffer.len());
    assert(buffer@.subrange(0, buffer@.len() as int) =~= buffer@);
    overwrite(&mut bytes, offset, buffer, buffer.len());
    Ok(bytes)
}

pub(crate) fn resize(bytes: &mut Vec<u8>, len: usize)
    ensures
        final(bytes)@ == resized(old(bytes)@, len as nat),
{
    let ghost start = bytes@;
    stretch(bytes, len);
    bytes.truncate(len);
    assert(bytes@ =~= resized(start, len as nat));
}

/// The bytes of the file to be written at a path; none where there is no file yet.
pub open spec fn file_for_write(view: ViewState, path: Seq<char>) -> Result<Seq<u8>, Status> {
    match state::file_at(view, path) {
        Ok(bytes) => Ok(bytes),
        Err(status) => if status == Status::NoSuchFile || status == Status::NameNotFound {
            Ok(Seq::empty())
        } else {
            Err(status)
        },
    }
}

/// The view after a write, with the length of the file and its version.
pub open spec fn after_write(
    view: ViewState,
    path: Seq<char>,
    bytes: Result<Seq<u8>, Status>,
) -> Result<(ViewState, nat, u64), Status> {
    match bytes {
        Err(status) => Err(status),
        Ok(bytes) => Ok(
            (
                state::with_entry(view, path, DirtyEntryView::File(bytes)),
                bytes.len(),
                view.next_version,
            ),
        ),
    }
}

/// What a write at a path makes of the file there.
pub open spec fn written_at(
    view: ViewState,
    path: Seq<char>,
    buffer: Seq<u8>,
    mode: WriteMode,
) -> Result<Seq<u8>, Status> {
    match file_for_write(view, path) {
        Err(status) => Err(status),
        Ok(bytes) => written(bytes, buffer, mode),
    }
}

/// What a new length at a path makes of the file there.
pub open spec fn resized_at(view: ViewState, path: Seq<char>, size: nat) -> Result<
    Seq<u8>,
    Status,
> {
    match file_for_write(view, path) {
        Err(status) => Err(status),
        Ok(bytes) => Ok(resized(bytes, size)),
    }
}

/// The view of what a write gave, with the state that it left.
pub open spec fn write_result(r: Result<(usize, u64), Status>, view: ViewState) -> Result<
    (ViewState, nat, u64),
    Status,
> {
    match r {
        Ok((len, version)) => Ok((view, len as nat, version)),
        Err(status) => Err(status),
    }
}

/// The view of a version, with the state that came with it.
pub open spec fn version_result(r: Result<u64, Status>, view: ViewState) -> Result<
    (ViewState, u64),
    Status,
> {
    match r {
        Ok(version) => Ok((view, version)),
        Err(status) => Err(status),
    }
}

/// The view after a file was renamed.
pub open spec fn renamed_file(
    view: ViewState,
    disk: Map<Seq<char>, Names>,
    from: Seq<char>,
    to: Seq<char>,
    replace: bool,
) -> Result<(ViewState, u64), Status> {
    if from == to {
        Ok((view, dirty::version_of(view.versions, from)))
    } else if text::same_ignoring_ascii_case(from, to) {
        match state::file_at(view, from) {
            Err(status) => Err(status),
            Ok(bytes) => Ok(
                (
                    state::with_entry(view, to, DirtyEntryView::File(bytes)),
                    view.next_version,
                ),
            ),
        }
    } else {
        match state::node_at(view, disk, to) {
            Err(status) => Err(status),
            Ok(node) => if node is Some && !replace {
                Err(Status::NameCollision)
            } else if node matches Some(NodeView::Directory(_)) {
                Err(Status::FileIsADirectory)
            } else {
                match state::file_at(view, from) {
                    Err(status) => Err(status),
                    Ok(bytes) => {
                        let moved = state::with_entry(view, to, DirtyEntryView::File(bytes));
                        Ok(
                            (
                                state::with_entry(moved, from, DirtyEntryView::Deleted),
                                moved.next_version,
                            ),
                        )
                    },
                }
            },
        }
    }
}

impl VirtualLaneState {
    /// Writes a whole file.
    pub fn write_file(&mut self, path: &str, bytes: Vec<u8>) -> (version: u64)
        requires
            old(self).wf(),
        ensures
            final(self).wf(),
            final(self)@ == state::with_entry(old(self)@, path@, DirtyEntryView::File(bytes@)),
            version == old(self)@.next_version,
    {
        self.set_dirty_entry(path, DirtyEntry::File(bytes))
    }

    fn read_file_for_write(&self, path: &str) -> (r: Result<Vec<u8>, Status>)
        requires
            self.wf(),
        ensures
            state::bytes_result(r) == file_for_write(self@, path@),
    {
        match self.read_file(path) {
            Ok(bytes) => Ok(bytes),
            Err(status) => {
                if status == Status::NoSuchFile || status == Status::NameNotFound {
                    let none: Vec<u8> = Vec::new();
                    assert(none@ =~= Seq::empty());
                    Ok(none)
                } else {
                    Err(status)
                }
            },
        }
    }

    /// Writes into a file; a file that is not there yet is created.
    pub fn write_file_range(&mut self, path: &str, buffer: &[u8], mode: WriteMode) -> (r: Result<
        (usize, u64),
        Status,
    >)
        requires
            old(self).wf(),
        ensures
            final(self).wf(),
            write_result(r, final(self)@) == after_write(
                old(self)@,
                path@,
                written_at(old(self)@, path@, buffer@, mode),
            ),
            r is Err ==> final(self)@ == old(self)@,
    {
        match self.read_file_for_write(path) {
            Err(status) => Err(status),
            Ok(bytes) => match write_range(bytes, buffer, mode) {
                Err(status) => Err(status),
                Ok(bytes) => {
                    let len: usize = bytes.len();
                    let version: u64 = self.set_dirty_entry(path, DirtyEntry::File(bytes));
                    Ok((len, version))
                },
            },
        }
    }

    /// Gives a file another length.
    pub fn resize_file(&mut self, path: &str, size: usize) -> (r: Result<(usize, u64), Status>)
        requires
            old(self).wf(),
        ensures
            final(self).wf(),
            write_result(r, final(self)@) == after_write(
                old(self)@,
                path@,
                resized_at(old(self)@, path@, size as nat),
            ),
            r is Err ==> final(self)@ == old(self)@,
    {
        match self.read_file_for_write(path) {
            Err(status) => Err(status),
            Ok(bytes) => {
                let mut bytes = bytes;
                resize(&mut bytes, size);
                let version: u64 = self.set_dirty_entry(path, DirtyEntry::File(bytes));
                Ok((size, version))
            },
        }
    }

    /// Deletes a file.
    pub fn delete_file(&mut self, path: &str)
        requires
            old(self).wf(),
        ensures
            final(self).wf(),
            final(self)@ == state::with_entry(old(self)@, path@, DirtyEntryView::Deleted),
    {
        let _ = self.set_dirty_entry(path, DirtyEntry::Deleted);
    }

    /// Creates a directory.
    pub fn create_dir(&mut self, path: &str) -> (version: u64)
        requires
            old(self).wf(),
        ensures
            final(self).wf(),
            final(self)@ == state::with_entry(old(self)@, path@, DirtyEntryView::Directory),
            version == old(self)@.next_version,
    {
        self.set_dirty_entry(path, DirtyEntry::Directory)
    }

    /// The version of a path; zero where it was never written.
    pub fn path_version(&self, path: &str) -> (r: u64)
        requires
            self.wf(),
        ensures
            r == dirty::version_of(self@.versions, path@),
    {
        path_version(&self.versions, path)
    }

    /// Deletes a file unless it was written since.
    pub fn delete_file_if_current(&mut self, path: &str, version: u64)
        requires
            old(self).wf(),
        ensures
            final(self).wf(),
            final(self)@ == if dirty::version_of(old(self)@.versions, path@) == version {
                state::with_entry(old(self)@, path@, DirtyEntryView::Deleted)
            } else {
                old(self)@
            },
    {
        if self.path_version(path) == version {
            self.delete_file(path);
        }
    }

    /// Renames a file. Another file in the way is replaced only if that is asked for.
    pub fn rename_file(&mut self, disk: &DiskTree, from: &str, to: &str, replace: bool) -> (r: Result<
        u64,
        Status,
    >)
        requires
            old(self).wf(),
            disk.wf(),
        ensures
            final(self).wf(),
            version_result(r, final(self)@) == renamed_file(
                old(self)@,
                disk@,
                from@,
                to@,
                replace,
            ),
            r is Err ==> final(self)@ == old(self)@,
    {
        if text_eq(from, to) {
            return Ok(self.path_version(from));
        }
        if eq_ignore_ascii_case(from, to) {
            return match self.read_file(from) {
                Err(status) => Err(status),
                Ok(bytes) => Ok(self.set_dirty_entry(to, DirtyEntry::File(bytes))),
            };
        }
        match self.node_for_path(disk, to) {
            Err(status) => {
                return Err(status);
            },
            Ok(None) => {},
            Ok(Some(node)) => {
                if !replace {
                    return Err(Status::NameCollision);
                }
                if node.is_dir() {
                    return Err(Status::FileIsADirectory);
                }
            },
        }
        match self.read_file(from) {
            Err(status) => Err(status),
            Ok(bytes) => {
                let _ = self.set_dirty_entry(to, DirtyEntry::File(bytes));
                Ok(self.set_dirty_entry(from, DirtyEntry::Deleted))
            },
        }
    }
}

// What lies below a directory.

/// The length of the longest of some texts.
pub open spec fn longest(list: Seq<Seq<char>>) -> nat
    decreases list.len(),
{
    if list.len() == 0 {
        0
    } else {
        let before = longest(list.drop_last());
        if list.last().len() > before {
            list.last().len()
        } else {
            before
        }
    }
}

/// The overlays of the lane of a view.
pub open spec fn known_overlays(view: ViewState) -> Seq<Seq<char>> {
    if view.fs.repo.lanes.contains(view.lane) {
        repo::overlay_listing(view.fs.repo, view.lane)
    } else {
        Seq::empty()
    }
}

/// The length of the longest path that anything is known of.
pub open spec fn reach(view: ViewState, disk: Map<Seq<char>, Names>) -> nat {
    let dirs = longest(text_map::listing(disk.dom()));
    let overlays = longest(known_overlays(view));
    let touched = longest(text_map::listing(view.dirty.dom()));
    let known = if dirs > overlays {
        dirs
    } else {
        overlays
    };
    if known > touched {
        known
    } else {
        touched
    }
}

/// The length up to which paths below `path` are followed: what is put behind `path` has room for
/// the longest path that is known.
pub open spec fn limit_below(view: ViewState, disk: Map<Seq<char>, Names>, path: Seq<char>) -> nat {
    path.len() + 1 + reach(view, disk)
}

/// How far a path is from the limit.
pub open spec fn room_below(limit: nat, path: Seq<char>) -> nat {
    if path.len() <= limit {
        (limit + 1 - path.len()) as nat
    } else {
        0
    }
}

/// The files that the lane shows below a directory.
pub open spec fn lane_files(
    view: ViewState,
    disk: Map<Seq<char>, Names>,
    path: Seq<char>,
) -> Result<Seq<Seq<char>>, Status> {
    lane_files_within(view, disk, path, limit_below(view, disk, path))
}

/// The files that the lane shows below a directory, as far as paths stay below a limit.
pub open spec fn lane_files_within(
    view: ViewState,
    disk: Map<Seq<char>, Names>,
    path: Seq<char>,
    limit: nat,
) -> Result<Seq<Seq<char>>, Status>
    decreases room_below(limit, path), 1nat, 0nat,
{
    match state::lane_names(view, disk, path) {
        Err(status) => Err(status),
        Ok(kinds) => lane_files_of(
            view,
            disk,
            path,
            limit,
            kinds,
            text_map::listing(kinds.dom()),
        ),
    }
}

/// The files that the lane shows at and below some names of a directory.
pub open spec fn lane_files_of(
    view: ViewState,
    disk: Map<Seq<char>, Names>,
    path: Seq<char>,
    limit: nat,
    kinds: Map<Seq<char>, DirEntryKind>,
    names: Seq<Seq<char>>,
) -> Result<Seq<Seq<char>>, Status>
    decreases room_below(limit, path), 0nat, names.len(),
{
    if names.len() == 0 {
        Ok(Seq::empty())
    } else {
        let name = names.last();
        let child = nodes::view_child(path, name);
        match lane_files_of(view, disk, path, limit, kinds, names.drop_last()) {
            Err(status) => Err(status),
            Ok(before) => match kinds[name] {
                DirEntryKind::File => Ok(before.push(child)),
                DirEntryKind::Directory => if path.len() > limit || child.len() <= path.len() {
                    Ok(before)
                } else {
                    match lane_files_within(view, disk, child, limit) {
                        Err(status) => Err(status),
                        Ok(below) => Ok(before + below),
                    }
                },
            },
        }
    }
}

proof fn lemma_lane_files_error(
    view: ViewState,
    disk: Map<Seq<char>, Names>,
    path: Seq<char>,
    limit: nat,
    kinds: Map<Seq<char>, DirEntryKind>,
    names: Seq<Seq<char>>,
    n: int,
)
    requires
        0 <= n <= names.len(),
        lane_files_of(view, disk, path, limit, kinds, names.subrange(0, n)) is Err,
    ensures
        lane_files_of(view, disk, path, limit, kinds, names) == lane_files_of(
            view,
            disk,
            path,
            limit,
            kinds,
            names.subrange(0, n),
        ),
    decreases names.len() - n,
{
    if n == names.len() {
        assert(names.subrange(0, n) =~= names);
    } else {
        assert(names.subrange(0, n + 1).drop_last() =~= names.subrange(0, n));
        lemma_lane_files_error(view, disk, path, limit, kinds, names, n + 1);
    }
}

/// The view of a list of paths or a status.
pub open spec fn paths_result(r: Result<Vec<String>, Status>) -> Result<Seq<Seq<char>>, Status> {
    match r {
        Ok(paths) => Ok(text::texts(paths@)),
        Err(status) => Err(status),
    }
}

fn longest_key<V>(map: &TextMap<V>) -> (r: usize)
    requires
        map.wf(),
    ensures
        r == longest(text_map::listing(map@.dom())),
{
    let ghost keys = map.keys();
    let mut longest_yet: usize = 0;
    let mut i: usize = 0;
    proof {
        map.lemma_wf();
        assert(keys.subrange(0, 0) =~= Seq::empty());
    }
    while i < map.len()
        invariant
            i <= map.pairs().len(),
            keys == map.keys(),
            longest_yet == longest(keys.subrange(0, i as int)),
        decreases map.pairs().len() - i,
    {
        let chars = chars_of(map.key_at(i));
        proof {
            assert(keys.subrange(0, i + 1).drop_last() =~= keys.subrange(0, i as int));
            assert(keys.subrange(0, i + 1).last() == chars@);
        }
        if chars.len() > longest_yet {
            longest_yet = chars.len();
        }
        i = i + 1;
    }
    assert(keys.subrange(0, i as int) =~= keys);
    longest_yet
}

fn longest_text(list: &Vec<String>) -> (r: usize)
    ensures
        r == longest(text::texts(list@)),
{
    let ghost all = text::texts(list@);
    let mut longest_yet: usize = 0;
    let mut i: usize = 0;
    assert(all.subrange(0, 0) =~= Seq::empty());
    while i < list.len()
        invariant
            i <= list@.len(),
            all == text::texts(list@),
            longest_yet == longest(all.subrange(0, i as int)),
        decreases list@.len() - i,
    {
        let chars = chars_of(list[i].as_str());
        proof {
            assert(all.subrange(0, i + 1).drop_last() =~= all.subrange(0, i as int));
            assert(all.subrange(0, i + 1).last() == chars@);
        }
        if chars.len() > longest_yet {
            longest_yet = chars.len();
        }
        i = i + 1;
    }
    assert(all.subrange(0, i as int) =~= all);
    longest_yet
}

impl VirtualLaneState {
    /// The length of the longest path that anything is known of.
    fn reach(&self, disk: &DiskTree) -> (r: usize)
        requires
            self.wf(),
            disk.wf(),
        ensures
            r == reach(self@, disk@),
    {
        let overlays: Vec<String> = match self.fs.changed_paths(self.lane.as_str()) {
            Err(_) => {
                let none: Vec<String> = Vec::new();
                assert(text::texts(none@) =~= Seq::empty());
                none
            },
            Ok(overlays) => overlays,
        };
        let dirs: usize = longest_key(&disk.dirs);
        let laid: usize = longest_text(&overlays);
        let touched: usize = longest_key(&self.dirty);
        proof {
            assert(disk@.dom() =~= disk.dirs@.dom());
            assert(self@.dirty.dom() =~= self.dirty@.dom());
        }
        let known: usize = if dirs > laid {
            dirs
        } else {
            laid
        };
        if known > touched {
            known
        } else {
            touched
        }
    }

    /// The length up to which paths below `path` are followed.
    fn limit_below(&self, disk: &DiskTree, path: &str) -> (r: u128)
        requires
            self.wf(),
            disk.wf(),
        ensures
            r == limit_below(self@, disk@, path@),
    {
        let known: usize = self.reach(disk);
        let len: usize = chars_of(path).len();
        len as u128 + 1 + known as u128
    }

    fn lane_files_below(&self, disk: &DiskTree, path: &str, limit: u128) -> (r: Result<
        Vec<String>,
        Status,
    >)
        requires
            self.wf(),
            disk.wf(),
        ensures
            paths_result(r) == lane_files_within(self@, disk@, path@, limit as nat),
        decreases room_below(limit as nat, path@), 1nat, 0nat,
    {
        let mut out: Vec<String> = Vec::new();
        let len: usize = chars_of(path).len();
        let list = match self.lane_names(disk, path) {
            Err(status) => {
                return Err(status);
            },
            Ok(list) => list,
        };
        let ghost view = self@;
        let ghost tree = disk@;
        let ghost all = sorting::views(list@);
        let ghost kinds = state::lane_names(view, tree, path@)->Ok_0;
        let ghost names = text_map::pair_keys(all);
        let mut i: usize = 0;
        proof {
            state::lemma_lists(all, kinds);
            assert(names.subrange(0, 0) =~= Seq::empty());
            assert(text::texts(out@) =~= Seq::empty());
        }
        while i < list.len()
            invariant
                i <= list@.len(),
                self.wf(),
                disk.wf(),
                view == self@,
                tree == disk@,
                len == path@.len(),
                all == sorting::views(list@),
                state::lane_names(view, tree, path@) is Ok,
                kinds == state::lane_names(view, tree, path@)->Ok_0,
                names == text_map::pair_keys(all),
                names == text_map::listing(kinds.dom()),
                forall|k: int|
                    0 <= k < all.len() ==> kinds.contains_key((#[trigger] all[k]).0)
                        && kinds[all[k].0] == all[k].1,
                lane_files_of(view, tree, path@, limit as nat, kinds, names.subrange(0, i as int)) == Ok::<
                    Seq<Seq<char>>,
                    Status,
                >(text::texts(out@)),
            decreases list@.len() - i,
        {
            let ghost before = text::texts(out@);
            let child = child_path_of(path, list[i].name.as_str());
            proof {
                assert(all[i as int] == list@[i as int]@);
                assert(names.subrange(0, i + 1).drop_last() =~= names.subrange(0, i as int));
                assert(names.subrange(0, i + 1).last() == all[i as int].0);
            }
            match list[i].kind {
                DirEntryKind::File => {
                    let ghost at = child@;
                    out.push(child);
                    assert(text::texts(out@) =~= before.push(at));
                },
                DirEntryKind::Directory => {
                    if len as u128 <= limit && chars_of(child.as_str()).len() > len {
                        match self.lane_files_below(disk, child.as_str(), limit) {
                            Err(status) => {
                                proof {
                                    lemma_lane_files_error(
                                        view,
                                        tree,
                                        path@,
                                        limit as nat,
                                        kinds,
                                        names,
                                        i + 1,
                                    );
                                }
                                return Err(status);
                            },
                            Ok(below) => {
                                text::append_texts(&mut out, &below);
                            },
                        }
                    }
                },
            }
            i = i + 1;
        }
        assert(names.subrange(0, i as int) =~= names);
        Ok(out)
    }
}

/// The files that the view shows below a directory.
pub open spec fn visible_files(
    view: ViewState,
    disk: Map<Seq<char>, Names>,
    path: Seq<char>,
) -> Result<Seq<Seq<char>>, Status> {
    visible_files_within(view, disk, path, limit_below(view, disk, path))
}

/// The files that the view shows below a directory, as far as paths stay below a limit.
pub open spec fn visible_files_within(
    view: ViewState,
    disk: Map<Seq<char>, Names>,
    path: Seq<char>,
    limit: nat,
) -> Result<Seq<Seq<char>>, Status>
    decreases room_below(limit, path), 1nat, 0nat,
{
    match state::dir_at(view, disk, path) {
        Err(status) => Err(status),
        Ok(entries) => visible_files_of(view, disk, path, limit, text_map::listing(entries.dom())),
    }
}

/// The files that the view shows at and below some names of a directory.
pub open spec fn visible_files_of(
    view: ViewState,
    disk: Map<Seq<char>, Names>,
    path: Seq<char>,
    limit: nat,
    names: Seq<Seq<char>>,
) -> Result<Seq<Seq<char>>, Status>
    decreases room_below(limit, path), 0nat, names.len(),
{
    if names.len() == 0 {
        Ok(Seq::empty())
    } else {
        let name = names.last();
        let child = nodes::view_child(path, name);
        match visible_files_of(view, disk, path, limit, names.drop_last()) {
            Err(status) => Err(status),
            Ok(before) => if name == "."@ || name == ".."@ {
                Ok(before)
            } else {
                match state::node_at(view, disk, child) {
                    Err(status) => Err(status),
                    Ok(None) => Ok(before),
                    Ok(Some(NodeView::File(_, _))) => Ok(before.push(child)),
                    Ok(Some(NodeView::Directory(_))) => if path.len() > limit || child.len()
                        <= path.len() {
                        Ok(before)
                    } else {
                        match visible_files_within(view, disk, child, limit) {
                            Err(status) => Err(status),
                            Ok(below) => Ok(before + below),
                        }
                    },
                }
            },
        }
    }
}

proof fn lemma_visible_files_error(
    view: ViewState,
    disk: Map<Seq<char>, Names>,
    path: Seq<char>,
    limit: nat,
    names: Seq<Seq<char>>,
    n: int,
)
    requires
        0 <= n <= names.len(),
        visible_files_of(view, disk, path, limit, names.subrange(0, n)) is Err,
    ensures
        visible_files_of(view, disk, path, limit, names) == visible_files_of(
            view,
            disk,
            path,
            limit,
            names.subrange(0, n),
        ),
    decreases names.len() - n,
{
    if n == names.len() {
        assert(names.subrange(0, n) =~= names);
    } else {
        assert(names.subrange(0, n + 1).drop_last() =~= names.subrange(0, n));
        lemma_visible_files_error(view, disk, path, limit, names, n + 1);
    }
}

/// Whether a directory shows more than itself and its parent.
pub open spec fn has_children(entries: Map<Seq<char>, NodeView>) -> bool {
    exists|name: Seq<char>| #[trigger] entries.contains_key(name) && name != "."@ && name != ".."@
}

/// The path below a directory with another directory in its place.
pub open spec fn moved_path(from: Seq<char>, to: Seq<char>, path: Seq<char>) -> Seq<char> {
    match text::after_prefix(path, vfs::dir_prefix(from)) {
        Some(tail) => nodes::view_child(to, tail),
        None => nodes::view_child(to, path),
    }
}

/// The view after some files were moved with their directory, and why not all were.
pub open spec fn moved_files(
    view: ViewState,
    from: Seq<char>,
    to: Seq<char>,
    files: Seq<Seq<char>>,
) -> (ViewState, Option<Status>)
    decreases files.len(),
{
    if files.len() == 0 {
        (view, None)
    } else {
        let before = moved_files(view, from, to, files.drop_last());
        let path = files.last();
        if before.1 is Some {
            before
        } else {
            match state::file_at(before.0, path) {
                Err(status) => (before.0, Some(status)),
                Ok(bytes) => (
                    state::with_entry(
                        state::with_entry(
                            before.0,
                            moved_path(from, to, path),
                            DirtyEntryView::File(bytes),
                        ),
                        path,
                        DirtyEntryView::Deleted,
                    ),
                    None,
                ),
            }
        }
    }
}

proof fn lemma_moved_error(
    view: ViewState,
    from: Seq<char>,
    to: Seq<char>,
    files: Seq<Seq<char>>,
    n: int,
)
    requires
        0 <= n <= files.len(),
        moved_files(view, from, to, files.subrange(0, n)).1 is Some,
    ensures
        moved_files(view, from, to, files) == moved_files(view, from, to, files.subrange(0, n)),
    decreases files.len() - n,
{
    if n == files.len() {
        assert(files.subrange(0, n) =~= files);
    } else {
        assert(files.subrange(0, n + 1).drop_last() =~= files.subrange(0, n));
        lemma_moved_error(view, from, to, files, n + 1);
    }
}

/// Why a directory cannot be renamed.
pub open spec fn rename_dir_fault(
    view: ViewState,
    disk: Map<Seq<char>, Names>,
    from: Seq<char>,
    to: Seq<char>,
    replace: bool,
) -> Option<Status> {
    if text::begins_with(to, vfs::dir_prefix(from)) {
        Some(Status::AccessDenied)
    } else {
        match state::node_at(view, disk, to) {
            Err(status) => Some(status),
            Ok(None) => None,
            Ok(Some(_)) => if !replace {
                Some(Status::NameCollision)
            } else {
                match state::dir_at(view, disk, to) {
                    Err(status) => Some(status),
                    Ok(entries) => if has_children(entries) {
                        Some(Status::DirectoryNotEmpty)
                    } else {
                        None
                    },
                }
            },
        }
    }
}

/// The view after a directory was renamed, with the version or why it was not.
pub open spec fn renamed_dir(
    view: ViewState,
    disk: Map<Seq<char>, Names>,
    from: Seq<char>,
    to: Seq<char>,
    replace: bool,
) -> (ViewState, Result<u64, Status>) {
    if from == to {
        (view, Ok(dirty::version_of(view.versions, from)))
    } else {
        match rename_dir_fault(view, disk, from, to, replace) {
            Some(status) => (view, Err(status)),
            None => match visible_files(view, disk, from) {
                Err(status) => (view, Err(status)),
                Ok(files) => {
                    let moved = moved_files(view, from, to, files);
                    match moved.1 {
                        Some(status) => (moved.0, Err(status)),
                        None => {
                            let there = state::with_entry(moved.0, to, DirtyEntryView::Directory);
                            (
                                state::with_entry(there, from, DirtyEntryView::Deleted),
                                Ok(there.next_version),
                            )
                        },
                    }
                },
            },
        }
    }
}

/// Those of some paths with a prefix at which the command left a file or a directory.
pub open spec fn touched_under(
    dirty: Map<Seq<char>, DirtyEntryView>,
    keys: Seq<Seq<char>>,
    prefix: Seq<char>,
) -> Seq<Seq<char>> {
    keys.filter(|key: Seq<char>| !(dirty[key] is Deleted) && text::begins_with(key, prefix))
}

/// The view after some paths were deleted.
pub open spec fn with_deleted(view: ViewState, paths: Seq<Seq<char>>) -> ViewState
    decreases paths.len(),
{
    if paths.len() == 0 {
        view
    } else {
        state::with_entry(
            with_deleted(view, paths.drop_last()),
            paths.last(),
            DirtyEntryView::Deleted,
        )
    }
}

/// The view after a directory was deleted with all that it shows.
pub open spec fn deleted_dir(view: ViewState, disk: Map<Seq<char>, Names>, path: Seq<char>) -> Result<
    ViewState,
    Status,
> {
    match lane_files(view, disk, path) {
        Err(status) => Err(status),
        Ok(files) => {
            let touched = touched_under(
                view.dirty,
                text_map::listing(view.dirty.dom()),
                vfs::dir_prefix(path),
            );
            Ok(with_deleted(view, (files + touched).push(path)))
        },
    }
}

/// The view of a result, with the state that it left.
pub open spec fn done_result(r: Result<(), Status>, view: ViewState) -> Result<ViewState, Status> {
    match r {
        Ok(()) => Ok(view),
        Err(status) => Err(status),
    }
}

fn dir_prefix_of(path: &str) -> (r: String)
    ensures
        r@ == vfs::dir_prefix(path@),
{
    if path.is_empty() {
        let none = String::new();
        assert(none@ =~= Seq::empty());
        none
    } else {
        path.to_owned().concat("/")
    }
}

impl VirtualLaneState {
    fn visible_files_below(&self, disk: &DiskTree, path: &str, limit: u128) -> (r: Result<
        Vec<String>,
        Status,
    >)
        requires
            self.wf(),
            disk.wf(),
        ensures
            paths_result(r) == visible_files_within(self@, disk@, path@, limit as nat),
        decreases room_below(limit as nat, path@), 1nat, 0nat,
    {
        let mut out: Vec<String> = Vec::new();
        let len: usize = chars_of(path).len();
        let entries = match self.dir_entries(disk, path) {
            Err(status) => {
                return Err(status);
            },
            Ok(entries) => entries,
        };
        let ghost view = self@;
        let ghost tree = disk@;
        let ghost names = entries.keys();
        let ghost shown = state::node_map(entries@);
        let mut i: usize = 0;
        proof {
            entries.lemma_wf();
            assert(shown.dom() =~= entries@.dom());
            assert(names.subrange(0, 0) =~= Seq::empty());
            assert(text::texts(out@) =~= Seq::empty());
        }
        while i < entries.len()
            invariant
                i <= entries.pairs().len(),
                self.wf(),
                disk.wf(),
                view == self@,
                tree == disk@,
                len == path@.len(),
                names == entries.keys(),
                names == text_map::listing(shown.dom()),
                state::dir_at(view, tree, path@) == Ok::<Map<Seq<char>, NodeView>, Status>(shown),
                visible_files_of(view, tree, path@, limit as nat, names.subrange(0, i as int)) == Ok::<
                    Seq<Seq<char>>,
                    Status,
                >(text::texts(out@)),
            decreases entries.pairs().len() - i,
        {
            let ghost before = text::texts(out@);
            let name = entries.key_at(i);
            proof {
                assert(names.subrange(0, i + 1).drop_last() =~= names.subrange(0, i as int));
                assert(names.subrange(0, i + 1).last() == name@);
            }
            if !text_eq(name, ".") && !text_eq(name, "..") {
                let child = child_path_of(path, name);
                match self.node_for_path(disk, child.as_str()) {
                    Err(status) => {
                        proof {
                            lemma_visible_files_error(
                                view,
                                tree,
                                path@,
                                limit as nat,
                                names,
                                i + 1,
                            );
                        }
                        return Err(status);
                    },
                    Ok(None) => {},
                    Ok(Some(node)) => {
                        if node.is_dir() {
                            if len as u128 <= limit && chars_of(child.as_str()).len() > len {
                                match self.visible_files_below(disk, child.as_str(), limit) {
                                    Err(status) => {
                                        proof {
                                            lemma_visible_files_error(
                                                view,
                                                tree,
                                                path@,
                                                limit as nat,
                                                names,
                                                i + 1,
                                            );
                                        }
                                        return Err(status);
                                    },
                                    Ok(below) => {
                                        text::append_texts(&mut out, &below);
                                    },
                                }
                            }
                        } else {
                            let ghost at = child@;
                            out.push(child);
                            assert(text::texts(out@) =~= before.push(at));
                        }
                    },
                }
            }
            i = i + 1;
        }
        assert(names.subrange(0, i as int) =~= names);
        Ok(out)
    }

    /// The files that the view shows below a directory.
    pub fn collect_state_visible_files(&self, disk: &DiskTree, path: &str) -> (r: Result<
        Vec<String>,
        Status,
    >)
        requires
            self.wf(),
            disk.wf(),
        ensures
            paths_result(r) == visible_files(self@, disk@, path@),
    {
        let limit: u128 = self.limit_below(disk, path);
        self.visible_files_below(disk, path, limit)
    }

    /// The files that the lane shows below a directory.
    pub fn collect_visible_files(&self, disk: &DiskTree, path: &str) -> (r: Result<
        Vec<String>,
        Status,
    >)
        requires
            self.wf(),
            disk.wf(),
        ensures
            paths_result(r) == lane_files(self@, disk@, path@),
    {
        let limit: u128 = self.limit_below(disk, path);
        self.lane_files_below(disk, path, limit)
    }

    fn dir_has_children(&self, disk: &DiskTree, path: &str) -> (r: Result<bool, Status>)
        requires
            self.wf(),
            disk.wf(),
        ensures
            r == match state::dir_at(self@, disk@, path@) {
                Err(status) => Err(status),
                Ok(entries) => Ok::<bool, Status>(has_children(entries)),
            },
    {
        match self.dir_entries(disk, path) {
            Err(status) => Err(status),
            Ok(entries) => {
                let ghost shown = state::node_map(entries@);
                let mut i: usize = 0;
                proof {
                    entries.lemma_wf();
                }
                while i < entries.len()
                    invariant
                        i <= entries.pairs().len(),
                        entries.wf(),
                        shown == state::node_map(entries@),
                        state::dir_at(self@, disk@, path@) == Ok::<
                            Map<Seq<char>, NodeView>,
                            Status,
                        >(shown),
                        forall|m: int|
                            0 <= m < i ==> (#[trigger] entries.pairs()[m]).0 == "."@
                                || entries.pairs()[m].0 == ".."@,
                    decreases entries.pairs().len() - i,
                {
                    let name = entries.key_at(i);
                    if !text_eq(name, ".") && !text_eq(name, "..") {
                        proof {
                            entries.lemma_wf();
                            assert(entries@.contains_key(entries.pairs()[i as int].0));
                            assert(shown.contains_key(name@));
                        }
                        return Ok(true);
                    }
                    i = i + 1;
                }
                proof {
                    entries.lemma_wf();
                    if has_children(shown) {
                        let name = choose|name: Seq<char>| #[trigger]
                            shown.contains_key(name) && name != "."@ && name != ".."@;
                        assert(entries@.contains_key(name));
                        let m = choose|m: int|
                            0 <= m < entries.pairs().len() && (#[trigger] entries.pairs()[m]).0
                                == name;
                        assert(entries.pairs()[m].0 == name);
                    }
                }
                Ok(false)
            },
        }
    }

    /// Renames a directory with all that it shows. An empty directory in the way is replaced only
    /// if that is asked for.
    pub fn rename_dir(&mut self, disk: &DiskTree, from: &str, to: &str, replace: bool) -> (r: Result<
        u64,
        Status,
    >)
        requires
            old(self).wf(),
            disk.wf(),
        ensures
            final(self).wf(),
            (final(self)@, r) == renamed_dir(old(self)@, disk@, from@, to@, replace),
    {
        if text_eq(from, to) {
            return Ok(self.path_version(from));
        }
        let ghost start = self@;
        let prefix = dir_prefix_of(from);
        if text_begins_with(to, prefix.as_str()) {
            return Err(Status::AccessDenied);
        }
        match self.node_for_path(disk, to) {
            Err(status) => {
                return Err(status);
            },
            Ok(None) => {},
            Ok(Some(_)) => {
                if !replace {
                    return Err(Status::NameCollision);
                }
                match self.dir_has_children(disk, to) {
                    Err(status) => {
                        return Err(status);
                    },
                    Ok(some) => {
                        if some {
                            return Err(Status::DirectoryNotEmpty);
                        }
                    },
                }
            },
        }
        let files = match self.collect_state_visible_files(disk, from) {
            Err(status) => {
                return Err(status);
            },
            Ok(files) => files,
        };
        let ghost all = text::texts(files@);
        let mut i: usize = 0;
        assert(all.subrange(0, 0) =~= Seq::empty());
        while i < files.len()
            invariant
                i <= files@.len(),
                self.wf(),
                start == old(self)@,
                from@ != to@,
                rename_dir_fault(start, disk@, from@, to@, replace) is None,
                prefix@ == vfs::dir_prefix(from@),
                all == text::texts(files@),
                visible_files(start, disk@, from@) == Ok::<Seq<Seq<char>>, Status>(all),
                moved_files(start, from@, to@, all.subrange(0, i as int)) == (
                    self@,
                    None::<Status>,
                ),
            decreases files@.len() - i,
        {
            let path = files[i].as_str();
            proof {
                assert(all.subrange(0, i + 1).drop_last() =~= all.subrange(0, i as int));
                assert(all.subrange(0, i + 1).last() == path@);
            }
            let target = match strip_prefix(path, prefix.as_str()) {
                Some(tail) => child_path_of(to, tail.as_str()),
                None => child_path_of(to, path),
            };
            match self.read_file(path) {
                Err(status) => {
                    proof {
                        lemma_moved_error(start, from@, to@, all, i + 1);
                    }
                    return Err(status);
                },
                Ok(bytes) => {
                    let _ = self.set_dirty_entry(target.as_str(), DirtyEntry::File(bytes));
                    let _ = self.set_dirty_entry(path, DirtyEntry::Deleted);
                },
            }
            i = i + 1;
        }
        assert(all.subrange(0, i as int) =~= all);
        let _ = self.set_dirty_entry(to, DirtyEntry::Directory);
        Ok(self.set_dirty_entry(from, DirtyEntry::Deleted))
    }

    fn touched_below(&self, prefix: &str) -> (r: Vec<String>)
        requires
            self.wf(),
        ensures
            text::texts(r@) == touched_under(
                self@.dirty,
                text_map::listing(self@.dirty.dom()),
                prefix@,
            ),
    {
        let ghost keys = self.dirty.keys();
        let ghost keep = |key: Seq<char>|
            !(self@.dirty[key] is Deleted) && text::begins_with(key, prefix@);
        let mut out: Vec<String> = Vec::new();
        let mut i: usize = 0;
        proof {
            self.dirty.lemma_wf();
            assert(self@.dirty.dom() =~= self.dirty@.dom());
            reveal(Seq::filter);
            assert(text::texts(out@) =~= keys.subrange(0, 0).filter(keep));
        }
        while i < self.dirty.len()
            invariant
                i <= self.dirty.pairs().len(),
                self.wf(),
                keys == self.dirty.keys(),
                keep == (|key: Seq<char>|
                    !(self@.dirty[key] is Deleted) && text::begins_with(key, prefix@)),
                text::texts(out@) == keys.subrange(0, i as int).filter(keep),
            decreases self.dirty.pairs().len() - i,
        {
            let key = self.dirty.key_at(i);
            let ghost before = text::texts(out@);
            proof {
                self.dirty.lemma_wf();
                assert(self.dirty@.contains_key(self.dirty.pairs()[i as int].0));
                assert(self@.dirty[key@] == self.dirty.pairs()[i as int].1@);
                reveal(Seq::filter);
                assert(keys.subrange(0, i + 1).drop_last() =~= keys.subrange(0, i as int));
                assert(keys.subrange(0, i + 1).last() == key@);
            }
            let there = match self.dirty.value_at(i) {
                DirtyEntry::Deleted => false,
                _ => true,
            };
            if there && text_begins_with(key, prefix) {
                out.push(key.to_owned());
                assert(text::texts(out@) =~= before.push(key@));
            }
            i = i + 1;
        }
        assert(keys.subrange(0, i as int) =~= keys);
        out
    }

    /// Deletes a directory with all that it shows.
    pub fn delete_dir(&mut self, disk: &DiskTree, path: &str) -> (r: Result<(), Status>)
        requires
            old(self).wf(),
            disk.wf(),
        ensures
            final(self).wf(),
            done_result(r, final(self)@) == deleted_dir(old(self)@, disk@, path@),
            r is Err ==> final(self)@ == old(self)@,
    {
        let ghost start = self@;
        let mut deleted = match self.collect_visible_files(disk, path) {
            Err(status) => {
                return Err(status);
            },
            Ok(files) => files,
        };
        let touched = self.touched_below(dir_prefix_of(path).as_str());
        text::append_texts(&mut deleted, &touched);
        let ghost all = text::texts(deleted@);
        let mut i: usize = 0;
        assert(all.subrange(0, 0) =~= Seq::empty());
        while i < deleted.len()
            invariant
                i <= deleted@.len(),
                self.wf(),
                all == text::texts(deleted@),
                self@ == with_deleted(start, all.subrange(0, i as int)),
            decreases deleted@.len() - i,
        {
            proof {
                assert(all.subrange(0, i + 1).drop_last() =~= all.subrange(0, i as int));
                assert(all.subrange(0, i + 1).last() == deleted@[i as int]@);
            }
            let _ = self.set_dirty_entry(deleted[i].as_str(), DirtyEntry::Deleted);
            i = i + 1;
        }
        assert(all.subrange(0, i as int) =~= all);
        assert(all.push(path@).drop_last() =~= all);
        let _ = self.set_dirty_entry(path, DirtyEntry::Deleted);
        Ok(())
    }

    /// Deletes a directory unless it was written since.
    pub fn delete_dir_if_current(&mut self, disk: &DiskTree, path: &str, version: u64) -> (r: Result<
        (),
        Status,
    >)
        requires
            old(self).wf(),
            disk.wf(),
        ensures
            final(self).wf(),
            dirty::version_of(old(self)@.versions, path@) == version ==> done_result(
                r,
                final(self)@,
            ) == deleted_dir(old(self)@, disk@, path@),
            dirty::version_of(old(self)@.versions, path@) != version ==> r is Ok && final(self)@
                == old(self)@,
            r is Err ==> final(self)@ == old(self)@,
    {
        if self.path_version(path) == version {
            self.delete_dir(disk, path)
        } else {
            Ok(())
        }
    }
}

} // verus!
