//! The state of a mounted view: a lane, and what a command wrote beside it.
use vstd::prelude::*;

use crate::repo;
use crate::sorting;
use crate::text;
use crate::text_map;
use crate::text_map::TextMap;
use crate::types;
use crate::types::FilePath;
use crate::vfs;
use crate::vfs::{DirEntry, DirEntryKind, Fs, LaneFs};
use crate::virtual_exec::dirty;
use crate::virtual_exec::dirty::{
    dir_entry_for_dirty_path, dirty_ancestor_hides, dirty_has_visible_children,
    newest_dirty_entry_for_path, DirtyEntry, DirtyEntryView,
};
use crate::virtual_exec::nodes;
use crate::virtual_exec::nodes::{
    child_path_of, status_from_lane_fs_error, NodeView, Status, VirtualNode,
};

verus! {

/// The directories of the worktree, with what each holds.
#[derive(Debug, PartialEq, Eq)]
pub struct DiskTree {
    pub dirs: TextMap<Vec<DirEntry>>,
}

/// The names in a directory of the worktree.
pub type Names = Seq<(Seq<char>, DirEntryKind)>;

impl View for DiskTree {
    type V = Map<Seq<char>, Names>;

    open spec fn view(&self) -> Map<Seq<char>, Names> {
        self.dirs@.map_values(|names: Vec<DirEntry>| sorting::views(names@))
    }
}

/// The directory of the worktree that a path names, if there is one.
pub open spec fn dir_on_disk(disk: Map<Seq<char>, Names>, path: Seq<char>) -> Option<Seq<char>> {
    match types::normalized_label(path) {
        Ok(directory) => if disk.contains_key(directory) {
            Some(directory)
        } else {
            None
        },
        Err(_) => None,
    }
}

/// What a directory of the worktree holds; nothing where there is no such directory.
pub open spec fn names_on_disk(disk: Map<Seq<char>, Names>, path: Seq<char>) -> Names {
    match dir_on_disk(disk, path) {
        Some(directory) => disk[directory],
        None => Seq::empty(),
    }
}

impl DiskTree {
    /// The directories are in order.
    pub open spec fn wf(&self) -> bool {
        self.dirs.wf()
    }

    /// Whether there is such a directory.
    pub fn is_dir(&self, path: &str) -> (r: bool)
        requires
            self.wf(),
        ensures
            r == (dir_on_disk(self@, path@) is Some),
    {
        match FilePath::normalize_label(path) {
            Ok(directory) => self.dirs.contains_key(directory.as_str()),
            Err(_) => false,
        }
    }

    /// What a directory holds.
    pub fn names(&self, path: &str) -> (r: Vec<DirEntry>)
        requires
            self.wf(),
        ensures
            sorting::views(r@) == names_on_disk(self@, path@),
    {
        let mut out: Vec<DirEntry> = Vec::new();
        let directory = match FilePath::normalize_label(path) {
            Ok(directory) => directory,
            Err(_) => {
                assert(sorting::views(out@) =~= Seq::empty());
                return out;
            },
        };
        match self.dirs.get(directory.as_str()) {
            None => {
                assert(sorting::views(out@) =~= Seq::empty());
            },
            Some(names) => {
                let mut i: usize = 0;
                while i < names.len()
                    invariant
                        i <= names@.len(),
                        out@.len() == i,
                        forall|k: int| 0 <= k < i ==> (#[trigger] out@[k])@ == names@[k]@,
                    decreases names@.len() - i,
                {
                    out.push(DirEntry { name: names[i].name.clone(), kind: names[i].kind });
                    i = i + 1;
                }
                assert(self@[directory@] == sorting::views(names@));
                assert(sorting::views(out@) =~= sorting::views(names@));
            },
        }
        out
    }
}

/// A mounted view: a lane, and what a command wrote beside it.
#[derive(Debug, PartialEq, Eq)]
pub struct VirtualLaneState {
    pub lane: String,
    pub fs: LaneFs,
    pub dirty: TextMap<DirtyEntry>,
    pub versions: TextMap<u64>,
    pub next_version: u64,
}

/// A [`VirtualLaneState`] as a mathematical value.
#[verifier::ext_equal]
pub struct ViewState {
    pub lane: Seq<char>,
    pub fs: Fs,
    pub dirty: Map<Seq<char>, DirtyEntryView>,
    pub versions: Map<Seq<char>, u64>,
    pub next_version: u64,
}

impl View for VirtualLaneState {
    type V = ViewState;

    open spec fn view(&self) -> ViewState {
        ViewState {
            lane: self.lane@,
            fs: self.fs@,
            dirty: dirty::dirty_map(self.dirty@),
            versions: self.versions@,
            next_version: self.next_version,
        }
    }
}

/// What the lane shows in a directory.
pub open spec fn lane_names(state: ViewState, disk: Map<Seq<char>, Names>, path: Seq<char>) -> Result<
    Map<Seq<char>, DirEntryKind>,
    Status,
> {
    match vfs::fs_list_dir(state.fs, state.lane, path, names_on_disk(disk, path)) {
        Ok(names) => Ok(names),
        Err(error) => Err(nodes::fs_status(error)),
    }
}

/// What the lane shows at a path that the command did not touch.
pub open spec fn lane_node(state: ViewState, disk: Map<Seq<char>, Names>, path: Seq<char>) -> Result<
    Option<NodeView>,
    Status,
> {
    if !state.fs.repo.lanes.contains(state.lane) {
        Err(Status::NameNotFound)
    } else {
        match vfs::fs_read(state.fs, state.lane, path) {
            Err(error) => Err(nodes::fs_status(error)),
            Ok(Some(bytes)) => Ok(Some(NodeView::File(path, bytes.len()))),
            Ok(None) => if repo::overlay_listing(state.fs.repo, state.lane).contains(path) {
                Ok(None)
            } else if dir_on_disk(disk, path) is Some {
                Ok(Some(NodeView::Directory(path)))
            } else {
                match lane_names(state, disk, path) {
                    Err(status) => Err(status),
                    Ok(names) => if names.dom() != Set::<Seq<char>>::empty() || dirty::has_below(
                        state.dirty,
                        path,
                    ) {
                        Ok(Some(NodeView::Directory(path)))
                    } else {
                        Ok(None)
                    },
                }
            },
        }
    }
}

/// What the view shows at a path.
pub open spec fn node_at(state: ViewState, disk: Map<Seq<char>, Names>, path: Seq<char>) -> Result<
    Option<NodeView>,
    Status,
> {
    if path.len() == 0 {
        Ok(Some(NodeView::Directory(path)))
    } else {
        match dirty::newest(state.dirty, state.versions, path) {
            Some(entry) => Ok(
                match entry {
                    DirtyEntryView::File(bytes) => Some(NodeView::File(path, bytes.len())),
                    DirtyEntryView::Directory => Some(NodeView::Directory(path)),
                    DirtyEntryView::Deleted => None,
                },
            ),
            None => if dirty::hides(state.dirty, state.versions, path) {
                Ok(None)
            } else {
                lane_node(state, disk, path)
            },
        }
    }
}

/// The view of a node or a status.
pub open spec fn node_result(r: Result<Option<VirtualNode>, Status>) -> Result<
    Option<NodeView>,
    Status,
> {
    match r {
        Ok(Some(node)) => Ok(Some(node@)),
        Ok(None) => Ok(None),
        Err(status) => Err(status),
    }
}

/// The bytes of the file that the view shows at a path.
pub open spec fn file_at(state: ViewState, path: Seq<char>) -> Result<Seq<u8>, Status> {
    match dirty::newest(state.dirty, state.versions, path) {
        Some(DirtyEntryView::File(bytes)) => Ok(bytes),
        Some(_) => Err(Status::NoSuchFile),
        None => if dirty::hides(state.dirty, state.versions, path) {
            Err(Status::NoSuchFile)
        } else {
            match vfs::fs_read(state.fs, state.lane, path) {
                Err(error) => Err(nodes::fs_status(error)),
                Ok(Some(bytes)) => Ok(bytes),
                Ok(None) => Err(Status::NoSuchFile),
            }
        },
    }
}

/// The view of bytes or a status.
pub open spec fn bytes_result(r: Result<Vec<u8>, Status>) -> Result<Seq<u8>, Status> {
    match r {
        Ok(bytes) => Ok(bytes@),
        Err(status) => Err(status),
    }
}

/// The view with an entry at a path. The version counter starts over once it is used up.
pub open spec fn with_entry(state: ViewState, path: Seq<char>, entry: DirtyEntryView) -> ViewState {
    ViewState {
        dirty: state.dirty.insert(path, entry),
        versions: state.versions.insert(path, state.next_version),
        next_version: vstd::wrapping::u64_specs::wrapping_add(state.next_version, 1),
        ..state
    }
}

// Directories.

/// What a directory shows of the names that the lane has there, or the first error.
pub open spec fn listed_nodes(
    fs: Fs,
    lane: Seq<char>,
    path: Seq<char>,
    kinds: Map<Seq<char>, DirEntryKind>,
    names: Seq<Seq<char>>,
) -> Result<Map<Seq<char>, NodeView>, Status>
    decreases names.len(),
{
    if names.len() == 0 {
        Ok(
            Map::empty().insert("."@, NodeView::Directory(path)).insert(
                ".."@,
                NodeView::Directory(Seq::empty()),
            ),
        )
    } else {
        let name = names.last();
        let child = nodes::view_child(path, name);
        match listed_nodes(fs, lane, path, kinds, names.drop_last()) {
            Err(status) => Err(status),
            Ok(before) => match kinds[name] {
                DirEntryKind::Directory => Ok(before.insert(name, NodeView::Directory(child))),
                DirEntryKind::File => match vfs::fs_read(fs, lane, child) {
                    Err(error) => Err(nodes::fs_status(error)),
                    Ok(bytes) => Ok(
                        before.insert(
                            name,
                            NodeView::File(
                                child,
                                match bytes {
                                    Some(bytes) => bytes.len(),
                                    None => 0,
                                },
                            ),
                        ),
                    ),
                },
            },
        }
    }
}

/// The names of a directory with what the command left below it.
pub open spec fn touched_nodes(
    entries: Map<Seq<char>, NodeView>,
    path: Seq<char>,
    dirty: Map<Seq<char>, DirtyEntryView>,
    keys: Seq<Seq<char>>,
) -> Map<Seq<char>, NodeView>
    decreases keys.len(),
{
    if keys.len() == 0 {
        entries
    } else {
        let before = touched_nodes(entries, path, dirty, keys.drop_last());
        let key = keys.last();
        match dirty::entry_below(path, key) {
            None => before,
            Some((name, kind)) => match (kind, dirty[key]) {
                (DirEntryKind::Directory, DirtyEntryView::Deleted) => before,
                (DirEntryKind::Directory, _) => before.insert(
                    name,
                    NodeView::Directory(nodes::view_child(path, name)),
                ),
                (DirEntryKind::File, DirtyEntryView::File(bytes)) => before.insert(
                    name,
                    NodeView::File(key, bytes.len()),
                ),
                (DirEntryKind::File, DirtyEntryView::Directory) => before.insert(
                    name,
                    NodeView::Directory(key),
                ),
                (DirEntryKind::File, DirtyEntryView::Deleted) => before.remove(name),
            },
        }
    }
}

/// What the view shows in a directory.
pub open spec fn dir_at(state: ViewState, disk: Map<Seq<char>, Names>, path: Seq<char>) -> Result<
    Map<Seq<char>, NodeView>,
    Status,
> {
    if dirty::hides(state.dirty, state.versions, path) {
        Err(Status::NameNotFound)
    } else {
        match lane_names(state, disk, path) {
            Err(status) => Err(status),
            Ok(kinds) => match listed_nodes(
                state.fs,
                state.lane,
                path,
                kinds,
                text_map::listing(kinds.dom()),
            ) {
                Err(status) => Err(status),
                Ok(entries) => Ok(
                    touched_nodes(
                        entries,
                        path,
                        state.dirty,
                        text_map::listing(state.dirty.dom()),
                    ),
                ),
            },
        }
    }
}

/// Nodes as mathematical values.
pub open spec fn node_map(map: Map<Seq<char>, VirtualNode>) -> Map<Seq<char>, NodeView> {
    map.map_values(|node: VirtualNode| node@)
}

/// The view of a directory or a status.
pub open spec fn dir_result(r: Result<TextMap<VirtualNode>, Status>) -> Result<
    Map<Seq<char>, NodeView>,
    Status,
> {
    match r {
        Ok(entries) => Ok(node_map(entries@)),
        Err(status) => Err(status),
    }
}

proof fn lemma_listed_error(
    fs: Fs,
    lane: Seq<char>,
    path: Seq<char>,
    kinds: Map<Seq<char>, DirEntryKind>,
    names: Seq<Seq<char>>,
    n: int,
)
    requires
        0 <= n <= names.len(),
        listed_nodes(fs, lane, path, kinds, names.subrange(0, n)) is Err,
    ensures
        listed_nodes(fs, lane, path, kinds, names) == listed_nodes(
            fs,
            lane,
            path,
            kinds,
            names.subrange(0, n),
        ),
    decreases names.len() - n,
{
    if n == names.len() {
        assert(names.subrange(0, n) =~= names);
    } else {
        assert(names.subrange(0, n + 1).drop_last() =~= names.subrange(0, n));
        lemma_listed_error(fs, lane, path, kinds, names, n + 1);
    }
}

/// What a list of names in order says of the map that it lists.
pub proof fn lemma_lists(list: Names, entries: Map<Seq<char>, DirEntryKind>)
    requires
        vfs::lists_entries(list, entries),
    ensures
        text_map::pair_keys(list) == text_map::listing(entries.dom()),
        forall|i: int|
            0 <= i < list.len() ==> entries.contains_key((#[trigger] list[i]).0)
                && entries[list[i].0] == list[i].1,
        list.len() == 0 <==> entries.dom() == Set::<Seq<char>>::empty(),
{
    text_map::lemma_pairs_map(list);
    let keys = text_map::pair_keys(list);
    assert forall|k: Seq<char>| entries.dom().contains(k) <==> #[trigger] keys.contains(k) by {
        if entries.contains_key(k) {
            let i = choose|i: int| 0 <= i < list.len() && (#[trigger] list[i]).0 == k;
            assert(keys[i] == k);
        }
        if keys.contains(k) {
            let i = choose|i: int| 0 <= i < keys.len() && keys[i] == k;
            assert(list[i].0 == k);
        }
    }
    text_map::lemma_listing(keys, entries.dom());
    if list.len() == 0 {
        assert(entries.dom() =~= Set::empty());
    } else {
        assert(entries.dom().contains(list[0].0));
    }
}

impl VirtualLaneState {
    /// The maps have their keys in order.
    pub open spec fn wf(&self) -> bool {
        self.fs.wf() && self.dirty.wf() && self.versions.wf()
    }

    /// A view in which the command has written nothing yet.
    pub fn new(lane: &str, fs: LaneFs) -> (r: Self)
        requires
            fs.wf(),
        ensures
            r.wf(),
            r@ == (ViewState {
                lane: lane@,
                fs: fs@,
                dirty: Map::empty(),
                versions: Map::empty(),
                next_version: 1,
            }),
    {
        let state = VirtualLaneState {
            lane: lane.to_owned(),
            fs,
            dirty: TextMap::new(),
            versions: TextMap::new(),
            next_version: 1,
        };
        assert(state@.dirty =~= Map::empty());
        state
    }

    pub(crate) fn lane_names(&self, disk: &DiskTree, path: &str) -> (r: Result<Vec<DirEntry>, Status>)
        requires
            self.wf(),
            disk.wf(),
        ensures
            match r {
                Ok(list) => lane_names(self@, disk@, path@) is Ok && vfs::lists_entries(
                    sorting::views(list@),
                    lane_names(self@, disk@, path@)->Ok_0,
                ),
                Err(status) => lane_names(self@, disk@, path@) == Err::<
                    Map<Seq<char>, DirEntryKind>,
                    Status,
                >(status),
            },
    {
        let names = disk.names(path);
        match self.fs.list_dir(self.lane.as_str(), path, &names) {
            Ok(list) => Ok(list),
            Err(error) => Err(status_from_lane_fs_error(&error)),
        }
    }

    fn lane_node(&self, disk: &DiskTree, path: &str) -> (r: Result<Option<VirtualNode>, Status>)
        requires
            self.wf(),
            disk.wf(),
        ensures
            node_result(r) == lane_node(self@, disk@, path@),
    {
        let overlays = match self.fs.changed_paths(self.lane.as_str()) {
            Err(error) => {
                return Err(status_from_lane_fs_error(&error));
            },
            Ok(overlays) => overlays,
        };
        match self.fs.read_file(self.lane.as_str(), path) {
            Err(error) => {
                return Err(status_from_lane_fs_error(&error));
            },
            Ok(Some(bytes)) => {
                return Ok(Some(VirtualNode::File(path.to_owned(), bytes.len() as u64)));
            },
            Ok(None) => {},
        }
        let overlaid = text::contains_text(&overlays, path);
        if overlaid {
            return Ok(None);
        }
        if disk.is_dir(path) {
            return Ok(Some(VirtualNode::Directory(path.to_owned())));
        }
        match self.lane_names(disk, path) {
            Err(status) => Err(status),
            Ok(list) => {
                proof {
                    lemma_lists(sorting::views(list@), lane_names(self@, disk@, path@)->Ok_0);
                    assert(sorting::views(list@).len() == list@.len());
                }
                if list.len() > 0 || dirty_has_visible_children(&self.dirty, path) {
                    Ok(Some(VirtualNode::Directory(path.to_owned())))
                } else {
                    Ok(None)
                }
            },
        }
    }

    /// What the view shows at a path.
    pub fn node_for_path(&self, disk: &DiskTree, path: &str) -> (r: Result<
        Option<VirtualNode>,
        Status,
    >)
        requires
            self.wf(),
            disk.wf(),
        ensures
            node_result(r) == node_at(self@, disk@, path@),
    {
        if path.is_empty() {
            return Ok(Some(VirtualNode::Directory(path.to_owned())));
        }
        match newest_dirty_entry_for_path(&self.dirty, &self.versions, path) {
            Some(entry) => {
                return Ok(
                    match entry {
                        DirtyEntry::File(bytes) => Some(
                            VirtualNode::File(path.to_owned(), bytes.len() as u64),
                        ),
                        DirtyEntry::Directory => Some(VirtualNode::Directory(path.to_owned())),
                        DirtyEntry::Deleted => None,
                    },
                );
            },
            None => {},
        }
        if dirty_ancestor_hides(&self.dirty, &self.versions, path) {
            return Ok(None);
        }
        self.lane_node(disk, path)
    }

    /// The bytes of the file that the view shows at a path.
    pub fn read_file(&self, path: &str) -> (r: Result<Vec<u8>, Status>)
        requires
            self.wf(),
        ensures
            bytes_result(r) == file_at(self@, path@),
    {
        match newest_dirty_entry_for_path(&self.dirty, &self.versions, path) {
            Some(entry) => {
                return match entry {
                    DirtyEntry::File(bytes) => Ok(vstd::slice::slice_to_vec(bytes.as_slice())),
                    _ => Err(Status::NoSuchFile),
                };
            },
            None => {},
        }
        if dirty_ancestor_hides(&self.dirty, &self.versions, path) {
            return Err(Status::NoSuchFile);
        }
        match self.fs.read_file(self.lane.as_str(), path) {
            Err(error) => Err(status_from_lane_fs_error(&error)),
            Ok(Some(bytes)) => Ok(bytes),
            Ok(None) => Err(Status::NoSuchFile),
        }
    }

    /// Leaves an entry at a path, with a version of its own.
    pub fn set_dirty_entry(&mut self, path: &str, entry: DirtyEntry) -> (version: u64)
        requires
            old(self).wf(),
        ensures
            final(self).wf(),
            final(self)@ == with_entry(old(self)@, path@, entry@),
            version == old(self)@.next_version,
    {
        let ghost before = self@;
        let ghost shown = entry@;
        let version: u64 = self.next_version;
        self.next_version = version.wrapping_add(1);
        let _ = self.dirty.insert(path.to_owned(), entry);
        let _ = self.versions.insert(path.to_owned(), version);
        proof {
            assert(self@.dirty =~= before.dirty.insert(path@, shown));
            assert(self@ =~= with_entry(before, path@, shown));
        }
        version
    }

    /// What the view shows in a directory, by name.
    pub fn dir_entries(&self, disk: &DiskTree, path: &str) -> (r: Result<
        TextMap<VirtualNode>,
        Status,
    >)
        requires
            self.wf(),
            disk.wf(),
        ensures
            dir_result(r) == dir_at(self@, disk@, path@),
            r matches Ok(entries) ==> entries.wf(),
    {
        if dirty_ancestor_hides(&self.dirty, &self.versions, path) {
            return Err(Status::NameNotFound);
        }
        let list = match self.lane_names(disk, path) {
            Err(status) => {
                return Err(status);
            },
            Ok(list) => list,
        };
        let ghost all = sorting::views(list@);
        let ghost kinds = lane_names(self@, disk@, path@)->Ok_0;
        let ghost names = text_map::pair_keys(all);
        let ghost fs = self@.fs;
        let ghost lane = self@.lane;
        let mut entries: TextMap<VirtualNode> = TextMap::new();
        let _ = entries.insert(".".to_owned(), VirtualNode::Directory(path.to_owned()));
        let _ = entries.insert("..".to_owned(), VirtualNode::Directory(String::new()));
        let mut i: usize = 0;
        proof {
            lemma_lists(all, kinds);
            assert(names.subrange(0, 0) =~= Seq::empty());
            assert(node_map(entries@) =~= Map::empty().insert(
                "."@,
                NodeView::Directory(path@),
            ).insert(".."@, NodeView::Directory(Seq::empty())));
        }
        while i < list.len()
            invariant
                i <= list@.len(),
                self.wf(),
                disk.wf(),
                all == sorting::views(list@),
                kinds == lane_names(self@, disk@, path@)->Ok_0,
                lane_names(self@, disk@, path@) is Ok,
                !dirty::hides(self@.dirty, self@.versions, path@),
                names == text_map::pair_keys(all),
                names == text_map::listing(kinds.dom()),
                forall|k: int|
                    0 <= k < all.len() ==> kinds.contains_key((#[trigger] all[k]).0)
                        && kinds[all[k].0] == all[k].1,
                fs == self@.fs,
                lane == self@.lane,
                entries.wf(),
                listed_nodes(fs, lane, path@, kinds, names.subrange(0, i as int)) == Ok::<
                    Map<Seq<char>, NodeView>,
                    Status,
                >(node_map(entries@)),
            decreases list@.len() - i,
        {
            let name = list[i].name.as_str();
            let ghost before = node_map(entries@);
            proof {
                assert(all[i as int] == list@[i as int]@);
                assert(names.subrange(0, i + 1).drop_last() =~= names.subrange(0, i as int));
                assert(names.subrange(0, i + 1).last() == name@);
            }
            let child = child_path_of(path, name);
            let ghost at = child@;
            let node = match list[i].kind {
                DirEntryKind::Directory => VirtualNode::Directory(child),
                DirEntryKind::File => match self.fs.read_file(self.lane.as_str(), child.as_str()) {
                    Err(error) => {
                        proof {
                            lemma_listed_error(fs, lane, path@, kinds, names, i + 1);
                        }
                        return Err(status_from_lane_fs_error(&error));
                    },
                    Ok(Some(bytes)) => VirtualNode::File(child, bytes.len() as u64),
                    Ok(None) => VirtualNode::File(child, 0),
                },
            };
            let ghost shown = node@;
            let _ = entries.insert(name.to_owned(), node);
            assert(node_map(entries@) =~= before.insert(name@, shown));
            i = i + 1;
        }
        assert(names.subrange(0, i as int) =~= names);
        self.add_touched(&mut entries, path);
        Ok(entries)
    }

    fn add_touched(&self, entries: &mut TextMap<VirtualNode>, path: &str)
        requires
            self.wf(),
            old(entries).wf(),
        ensures
            final(entries).wf(),
            node_map(final(entries)@) == touched_nodes(
                node_map(old(entries)@),
                path@,
                self@.dirty,
                text_map::listing(self@.dirty.dom()),
            ),
    {
        let ghost start = node_map(entries@);
        let ghost keys = self.dirty.keys();
        let mut i: usize = 0;
        proof {
            self.dirty.lemma_wf();
            assert(self@.dirty.dom() =~= self.dirty@.dom());
            assert(keys.subrange(0, 0) =~= Seq::empty());
        }
        while i < self.dirty.len()
            invariant
                i <= self.dirty.pairs().len(),
                self.wf(),
                keys == self.dirty.keys(),
                entries.wf(),
                node_map(entries@) == touched_nodes(
                    start,
                    path@,
                    self@.dirty,
                    keys.subrange(0, i as int),
                ),
            decreases self.dirty.pairs().len() - i,
        {
            let key = self.dirty.key_at(i);
            let entry = self.dirty.value_at(i);
            let ghost before = node_map(entries@);
            proof {
                self.dirty.lemma_wf();
                assert(self.dirty@.contains_key(self.dirty.pairs()[i as int].0));
                assert(self@.dirty[key@] == entry@);
                assert(keys.subrange(0, i + 1).drop_last() =~= keys.subrange(0, i as int));
                assert(keys.subrange(0, i + 1).last() == key@);
            }
            match dir_entry_for_dirty_path(path, key) {
                None => {},
                Some((name, kind)) => {
                    let ghost named = name@;
                    match kind {
                        DirEntryKind::Directory => match entry {
                            DirtyEntry::Deleted => {},
                            _ => {
                                let child = child_path_of(path, name.as_str());
                                let ghost at = child@;
                                let _ = entries.insert(name, VirtualNode::Directory(child));
                                assert(node_map(entries@) =~= before.insert(
                                    named,
                                    NodeView::Directory(at),
                                ));
                            },
                        },
                        DirEntryKind::File => match entry {
                            DirtyEntry::File(bytes) => {
                                let _ = entries.insert(
                                    name,
                                    VirtualNode::File(key.to_owned(), bytes.len() as u64),
                                );
                                assert(node_map(entries@) =~= before.insert(
                                    named,
                                    NodeView::File(key@, bytes@.len()),
                                ));
                            },
                            DirtyEntry::Directory => {
                                let _ = entries.insert(name, VirtualNode::Directory(key.to_owned()));
                                assert(node_map(entries@) =~= before.insert(
                                    named,
                                    NodeView::Directory(key@),
                                ));
                            },
                            DirtyEntry::Deleted => {
                                let _ = entries.remove(name.as_str());
                                assert(node_map(entries@) =~= before.remove(named));
                            },
                        },
                    }
                },
            }
            i = i + 1;
        }
        assert(keys.subrange(0, i as int) =~= keys);
    }
}

} // verus!
