//! The end of a command in a mounted view: what it wrote is taken into the lane.
use vstd::prelude::*;

use crate::materialize::snapshot;
use crate::repo;
use crate::repo::Repo;
use crate::sorting;
use crate::text;
use crate::text::{eq_ignore_ascii_case, split, to_ascii_lowercase};
use crate::text_map;
use crate::text_map::TextMap;
use crate::types;
use crate::vfs;
use crate::vfs::{ChangeView, DirEntry, Fs, LaneFileChange, LaneFs, LaneFsErrorView};
use crate::virtual_exec::capture;
use crate::virtual_exec::dirty;
use crate::virtual_exec::dirty::{path_version, DirtyEntry, DirtyEntryView};
use crate::virtual_exec::nodes;
use crate::virtual_exec::nodes::{
    child_path_of, from_status, status_from_lane_fs_error, Status,
};
use crate::virtual_exec::state;
use crate::virtual_exec::state::{DiskTree, Names, ViewState, VirtualLaneState};

verus! {

// Paths in the case in which the lane has them.

/// The first of some names that differs from a part in case alone.
pub open spec fn first_match(names: Seq<Seq<char>>, part: Seq<char>) -> Option<Seq<char>>
    decreases names.len(),
{
    if names.len() == 0 {
        None
    } else {
        match first_match(names.drop_last(), part) {
            Some(name) => Some(name),
            None => if text::same_ignoring_ascii_case(names.last(), part) {
                Some(names.last())
            } else {
                None
            },
        }
    }
}

/// The path that parts name, each in the case in which the lane has it.
pub open spec fn canonical_parts(
    fs: Fs,
    lane: Seq<char>,
    disk: Map<Seq<char>, Names>,
    parts: Seq<Seq<char>>,
) -> Result<Seq<char>, Status>
    decreases parts.len(),
{
    if parts.len() == 0 {
        Ok(Seq::empty())
    } else {
        match canonical_parts(fs, lane, disk, parts.drop_last()) {
            Err(status) => Err(status),
            Ok(above) => match vfs::fs_list_dir(
                fs,
                lane,
                above,
                state::names_on_disk(disk, above),
            ) {
                Err(error) => Err(nodes::fs_status(error)),
                Ok(kinds) => Ok(
                    nodes::view_child(
                        above,
                        match first_match(text_map::listing(kinds.dom()), parts.last()) {
                            Some(name) => name,
                            None => parts.last(),
                        },
                    ),
                ),
            },
        }
    }
}

/// A path in the case in which the lane has it.
pub open spec fn canonical_path(
    fs: Fs,
    lane: Seq<char>,
    disk: Map<Seq<char>, Names>,
    path: Seq<char>,
) -> Result<Seq<char>, Status> {
    canonical_parts(fs, lane, disk, snapshot::named_parts(path))
}

proof fn lemma_first_match(names: Seq<Seq<char>>, part: Seq<char>, n: int)
    requires
        0 <= n <= names.len(),
        first_match(names.subrange(0, n), part) is Some,
    ensures
        first_match(names, part) == first_match(names.subrange(0, n), part),
    decreases names.len() - n,
{
    if n == names.len() {
        assert(names.subrange(0, n) =~= names);
    } else {
        assert(names.subrange(0, n + 1).drop_last() =~= names.subrange(0, n));
        lemma_first_match(names, part, n + 1);
    }
}

proof fn lemma_canonical_error(
    fs: Fs,
    lane: Seq<char>,
    disk: Map<Seq<char>, Names>,
    parts: Seq<Seq<char>>,
    n: int,
)
    requires
        0 <= n <= parts.len(),
        canonical_parts(fs, lane, disk, parts.subrange(0, n)) is Err,
    ensures
        canonical_parts(fs, lane, disk, parts) == canonical_parts(
            fs,
            lane,
            disk,
            parts.subrange(0, n),
        ),
    decreases parts.len() - n,
{
    if n == parts.len() {
        assert(parts.subrange(0, n) =~= parts);
    } else {
        assert(parts.subrange(0, n + 1).drop_last() =~= parts.subrange(0, n));
        lemma_canonical_error(fs, lane, disk, parts, n + 1);
    }
}

fn matching_name(list: &Vec<DirEntry>, part: &str) -> (r: Option<String>)
    ensures
        text::opt_text(r) == first_match(
            text_map::pair_keys(sorting::views(list@)),
            part@,
        ),
{
    let ghost names = text_map::pair_keys(sorting::views(list@));
    let mut i: usize = 0;
    assert(names.subrange(0, 0) =~= Seq::empty());
    while i < list.len()
        invariant
            i <= list@.len(),
            names == text_map::pair_keys(sorting::views(list@)),
            first_match(names.subrange(0, i as int), part@) is None,
        decreases list@.len() - i,
    {
        proof {
            assert(sorting::views(list@)[i as int] == list@[i as int]@);
            assert(names.subrange(0, i + 1).drop_last() =~= names.subrange(0, i as int));
            assert(names.subrange(0, i + 1).last() == list@[i as int]@.0);
        }
        if eq_ignore_ascii_case(list[i].name.as_str(), part) {
            proof {
                lemma_first_match(names, part@, i + 1);
            }
            return Some(list[i].name.clone());
        }
        i = i + 1;
    }
    assert(names.subrange(0, i as int) =~= names);
    None
}

fn named_parts_of(path: &str) -> (r: Vec<String>)
    ensures
        text::texts(r@) == snapshot::named_parts(path@),
{
    let parts = split(path, '/');
    let ghost all = text::split_text(path@, '/');
    let ghost named = |part: Seq<char>| part.len() > 0;
    let mut out: Vec<String> = Vec::new();
    let mut i: usize = 0;
    proof {
        reveal(Seq::filter);
        assert(text::texts(out@) =~= all.subrange(0, 0).filter(named));
    }
    while i < parts.len()
        invariant
            i <= parts@.len(),
            all == text::texts(parts@),
            named == (|part: Seq<char>| part.len() > 0),
            text::texts(out@) == all.subrange(0, i as int).filter(named),
        decreases parts@.len() - i,
    {
        let ghost before = text::texts(out@);
        proof {
            reveal(Seq::filter);
            assert(all.subrange(0, i + 1).drop_last() =~= all.subrange(0, i as int));
            assert(all.subrange(0, i + 1).last() == parts@[i as int]@);
        }
        if !parts[i].as_str().is_empty() {
            out.push(parts[i].clone());
            assert(text::texts(out@) =~= before.push(parts@[i as int]@));
        }
        i = i + 1;
    }
    assert(all.subrange(0, i as int) =~= all);
    out
}

/// A path in the case in which a lane has it: each part that the lane shows in another case gets
/// that case.
pub fn canonicalize_visible_path(fs: &LaneFs, lane: &str, disk: &DiskTree, path: &str) -> (r: Result<
    String,
    Status,
>)
    requires
        fs.wf(),
        disk.wf(),
    ensures
        nodes::path_result(r) == canonical_path(fs@, lane@, disk@, path@),
{
    let parts = named_parts_of(path);
    let ghost all = text::texts(parts@);
    let mut canonical = String::new();
    let mut i: usize = 0;
    proof {
        assert(all.subrange(0, 0) =~= Seq::empty());
        assert(canonical@ =~= Seq::empty());
    }
    while i < parts.len()
        invariant
            i <= parts@.len(),
            fs.wf(),
            disk.wf(),
            all == text::texts(parts@),
            all == snapshot::named_parts(path@),
            canonical_parts(fs@, lane@, disk@, all.subrange(0, i as int)) == Ok::<
                Seq<char>,
                Status,
            >(canonical@),
        decreases parts@.len() - i,
    {
        let part = parts[i].as_str();
        proof {
            assert(all.subrange(0, i + 1).drop_last() =~= all.subrange(0, i as int));
            assert(all.subrange(0, i + 1).last() == part@);
        }
        let names = disk.names(canonical.as_str());
        match fs.list_dir(lane, canonical.as_str(), &names) {
            Err(error) => {
                proof {
                    lemma_canonical_error(fs@, lane@, disk@, all, i + 1);
                }
                return Err(status_from_lane_fs_error(&error));
            },
            Ok(list) => {
                proof {
                    state::lemma_lists(
                        sorting::views(list@),
                        vfs::fs_list_dir(
                            fs@,
                            lane@,
                            canonical@,
                            state::names_on_disk(disk@, canonical@),
                        )->Ok_0,
                    );
                }
                canonical = match matching_name(&list, part) {
                    Some(name) => child_path_of(canonical.as_str(), name.as_str()),
                    None => child_path_of(canonical.as_str(), part),
                };
            },
        }
        i = i + 1;
    }
    assert(all.subrange(0, i as int) =~= all);
    Ok(canonical)
}

// What a command wrote, one entry for each path.

/// An entry with its version and its path.
#[derive(Debug, PartialEq, Eq)]
pub struct MergedEntry {
    pub version: u64,
    pub path: String,
    pub entry: DirtyEntry,
}

/// A [`MergedEntry`] as a mathematical value.
pub struct MergedView {
    pub version: u64,
    pub path: Seq<char>,
    pub entry: DirtyEntryView,
}

impl View for MergedEntry {
    type V = MergedView;

    open spec fn view(&self) -> MergedView {
        MergedView { version: self.version, path: self.path@, entry: self.entry@ }
    }
}

/// Entries as mathematical values.
pub open spec fn merged_map(map: Map<Seq<char>, MergedEntry>) -> Map<Seq<char>, MergedView> {
    map.map_values(|entry: MergedEntry| entry@)
}

/// The entries by lower-case path, with one more. An older one does not take the place of a newer.
pub open spec fn with_merged(before: Map<Seq<char>, MergedView>, entry: MergedView) -> Map<
    Seq<char>,
    MergedView,
> {
    let key = text::lower_text(entry.path);
    if before.contains_key(key) && before[key].version > entry.version {
        before
    } else {
        before.insert(key, entry)
    }
}

/// What a command wrote at some paths, by lower-case path.
pub open spec fn merged(
    fs: Fs,
    lane: Seq<char>,
    disk: Map<Seq<char>, Names>,
    dirty: Map<Seq<char>, DirtyEntryView>,
    versions: Map<Seq<char>, u64>,
    keys: Seq<Seq<char>>,
) -> Result<Map<Seq<char>, MergedView>, Status>
    decreases keys.len(),
{
    if keys.len() == 0 {
        Ok(Map::empty())
    } else {
        let key = keys.last();
        match merged(fs, lane, disk, dirty, versions, keys.drop_last()) {
            Err(status) => Err(status),
            Ok(before) => match canonical_path(fs, lane, disk, key) {
                Err(status) => Err(status),
                Ok(path) => Ok(
                    with_merged(
                        before,
                        MergedView {
                            version: dirty::version_of(versions, key),
                            path,
                            entry: dirty[key],
                        },
                    ),
                ),
            },
        }
    }
}

proof fn lemma_merged_error(
    fs: Fs,
    lane: Seq<char>,
    disk: Map<Seq<char>, Names>,
    dirty: Map<Seq<char>, DirtyEntryView>,
    versions: Map<Seq<char>, u64>,
    keys: Seq<Seq<char>>,
    n: int,
)
    requires
        0 <= n <= keys.len(),
        merged(fs, lane, disk, dirty, versions, keys.subrange(0, n)) is Err,
    ensures
        merged(fs, lane, disk, dirty, versions, keys) == merged(
            fs,
            lane,
            disk,
            dirty,
            versions,
            keys.subrange(0, n),
        ),
    decreases keys.len() - n,
{
    if n == keys.len() {
        assert(keys.subrange(0, n) =~= keys);
    } else {
        assert(keys.subrange(0, n + 1).drop_last() =~= keys.subrange(0, n));
        lemma_merged_error(fs, lane, disk, dirty, versions, keys, n + 1);
    }
}

/// What a command wrote: one entry for each path, in the order of lower-case paths.
pub open spec fn canonical_entries(
    fs: Fs,
    disk: Map<Seq<char>, Names>,
    view: ViewState,
) -> Result<Seq<(Seq<char>, DirtyEntryView)>, Status> {
    match merged(
        fs,
        view.lane,
        disk,
        view.dirty,
        view.versions,
        text_map::listing(view.dirty.dom()),
    ) {
        Err(status) => Err(status),
        Ok(entries) => Ok(
            text_map::listing(entries.dom()).map_values(
                |key: Seq<char>| (entries[key].path, entries[key].entry),
            ),
        ),
    }
}

/// A path with what a command left there.
#[derive(Debug, PartialEq, Eq)]
pub struct CanonicalEntry {
    pub path: String,
    pub entry: DirtyEntry,
}

impl View for CanonicalEntry {
    type V = (Seq<char>, DirtyEntryView);

    open spec fn view(&self) -> (Seq<char>, DirtyEntryView) {
        (self.path@, self.entry@)
    }
}

/// The view of a list of entries or a status.
pub open spec fn entries_result(r: Result<Vec<CanonicalEntry>, Status>) -> Result<
    Seq<(Seq<char>, DirtyEntryView)>,
    Status,
> {
    match r {
        Ok(list) => Ok(sorting::views(list@)),
        Err(status) => Err(status),
    }
}

impl VirtualLaneState {
    /// What the command wrote: one entry for each path, in the case in which `fs` has it.
    pub fn canonicalize_dirty_entries(&self, fs: &LaneFs, disk: &DiskTree) -> (r: Result<
        Vec<CanonicalEntry>,
        Status,
    >)
        requires
            self.wf(),
            fs.wf(),
            disk.wf(),
        ensures
            entries_result(r) == canonical_entries(fs@, disk@, self@),
    {
        let ghost view = self@;
        let ghost keys = self.dirty.keys();
        let mut entries: TextMap<MergedEntry> = TextMap::new();
        let mut i: usize = 0;
        proof {
            self.dirty.lemma_wf();
            assert(view.dirty.dom() =~= self.dirty@.dom());
            assert(keys.subrange(0, 0) =~= Seq::empty());
            assert(merged_map(entries@) =~= Map::empty());
        }
        while i < self.dirty.len()
            invariant
                i <= self.dirty.pairs().len(),
                self.wf(),
                fs.wf(),
                disk.wf(),
                view == self@,
                keys == self.dirty.keys(),
                keys == text_map::listing(view.dirty.dom()),
                entries.wf(),
                merged(
                    fs@,
                    view.lane,
                    disk@,
                    view.dirty,
                    view.versions,
                    keys.subrange(0, i as int),
                ) == Ok::<Map<Seq<char>, MergedView>, Status>(merged_map(entries@)),
            decreases self.dirty.pairs().len() - i,
        {
            let key = self.dirty.key_at(i);
            let entry = self.dirty.value_at(i);
            let ghost before = merged_map(entries@);
            proof {
                self.dirty.lemma_wf();
                assert(self.dirty@.contains_key(self.dirty.pairs()[i as int].0));
                assert(view.dirty[key@] == entry@);
                assert(keys.subrange(0, i + 1).drop_last() =~= keys.subrange(0, i as int));
                assert(keys.subrange(0, i + 1).last() == key@);
            }
            match canonicalize_visible_path(fs, self.lane.as_str(), disk, key) {
                Err(status) => {
                    proof {
                        lemma_merged_error(
                            fs@,
                            view.lane,
                            disk@,
                            view.dirty,
                            view.versions,
                            keys,
                            i + 1,
                        );
                    }
                    return Err(status);
                },
                Ok(path) => {
                    let lower = to_ascii_lowercase(path.as_str());
                    let version: u64 = path_version(&self.versions, key);
                    let keep = match entries.get(lower.as_str()) {
                        Some(held) => {
                            assert(before[lower@] == held@);
                            held.version > version
                        },
                        None => false,
                    };
                    let found = MergedEntry { version, path, entry: entry.copy() };
                    let ghost shown = found@;
                    if !keep {
                        let ghost named = lower@;
                        let _ = entries.insert(lower, found);
                        assert(merged_map(entries@) =~= before.insert(named, shown));
                    }
                    assert(merged_map(entries@) =~= with_merged(before, shown));
                },
            }
            i = i + 1;
        }
        assert(keys.subrange(0, i as int) =~= keys);
        Ok(list_entries(&entries))
    }
}

fn list_entries(entries: &TextMap<MergedEntry>) -> (r: Vec<CanonicalEntry>)
    requires
        entries.wf(),
    ensures
        sorting::views(r@) == text_map::listing(merged_map(entries@).dom()).map_values(
            |key: Seq<char>| (merged_map(entries@)[key].path, merged_map(entries@)[key].entry),
        ),
{
    let ghost shown = merged_map(entries@);
    let ghost keys = entries.keys();
    let mut out: Vec<CanonicalEntry> = Vec::new();
    let mut i: usize = 0;
    proof {
        entries.lemma_wf();
        assert(shown.dom() =~= entries@.dom());
    }
    while i < entries.len()
        invariant
            i <= entries.pairs().len(),
            entries.wf(),
            shown == merged_map(entries@),
            keys == entries.keys(),
            out@.len() == i,
            forall|k: int|
                0 <= k < i ==> (#[trigger] out@[k])@ == (shown[keys[k]].path, shown[keys[k]].entry),
        decreases entries.pairs().len() - i,
    {
        let entry = entries.value_at(i);
        proof {
            entries.lemma_wf();
            assert(entries@.contains_key(entries.pairs()[i as int].0));
            assert(shown[keys[i as int]] == entry@);
        }
        out.push(CanonicalEntry { path: entry.path.clone(), entry: entry.entry.copy() });
        i = i + 1;
    }
    assert(sorting::views(out@) =~= keys.map_values(
        |key: Seq<char>| (shown[key].path, shown[key].entry),
    ));
    out
}

// Taking it into the lane.

/// The file tree after one entry was taken into a lane. A directory takes the place of a file.
pub open spec fn apply_entry(fs: Fs, lane: Seq<char>, path: Seq<char>, entry: DirtyEntryView) -> Result<
    Fs,
    LaneFsErrorView,
> {
    match entry {
        DirtyEntryView::File(bytes) => vfs::fs_replace(fs, lane, path, Some(bytes)),
        DirtyEntryView::Deleted => vfs::fs_replace(fs, lane, path, None),
        DirtyEntryView::Directory => match vfs::fs_read(fs, lane, path) {
            Err(error) => Err(error),
            Ok(None) => Ok(fs),
            Ok(Some(_)) => vfs::fs_replace(fs, lane, path, None),
        },
    }
}

/// The file tree after entries were taken into a lane, and why not all were.
pub open spec fn apply_entries(
    fs: Fs,
    lane: Seq<char>,
    list: Seq<(Seq<char>, DirtyEntryView)>,
) -> (Fs, Option<Status>)
    decreases list.len(),
{
    if list.len() == 0 {
        (fs, None)
    } else {
        let before = apply_entries(fs, lane, list.drop_last());
        if before.1 is Some {
            before
        } else {
            match apply_entry(before.0, lane, list.last().0, list.last().1) {
                Ok(after) => (after, None),
                Err(error) => (before.0, Some(nodes::fs_status(error))),
            }
        }
    }
}

/// The file tree with a lane.
pub open spec fn with_lane(fs: Fs, lane: Seq<char>) -> Result<Fs, Status> {
    match types::parsed_lane(lane) {
        Err(error) => Err(nodes::lane_status(error)),
        Ok(_) => Ok(Fs { repo: Repo { lanes: fs.repo.lanes.insert(lane), ..fs.repo }, ..fs }),
    }
}

/// The file tree after what a command wrote was taken into a lane, and why not all was.
pub open spec fn applied(
    fs: Fs,
    lane: Seq<char>,
    list: Seq<(Seq<char>, DirtyEntryView)>,
) -> (Fs, Option<Status>) {
    match with_lane(fs, lane) {
        Err(status) => (fs, Some(status)),
        Ok(there) => apply_entries(there, lane, list),
    }
}

proof fn lemma_apply_error(
    fs: Fs,
    lane: Seq<char>,
    list: Seq<(Seq<char>, DirtyEntryView)>,
    n: int,
)
    requires
        0 <= n <= list.len(),
        apply_entries(fs, lane, list.subrange(0, n)).1 is Some,
    ensures
        apply_entries(fs, lane, list) == apply_entries(fs, lane, list.subrange(0, n)),
    decreases list.len() - n,
{
    if n == list.len() {
        assert(list.subrange(0, n) =~= list);
    } else {
        assert(list.subrange(0, n + 1).drop_last() =~= list.subrange(0, n));
        lemma_apply_error(fs, lane, list, n + 1);
    }
}

/// The status of a result.
pub open spec fn fault(r: Result<(), Status>) -> Option<Status> {
    match r {
        Ok(()) => None,
        Err(status) => Some(status),
    }
}

fn add_lane(fs: &mut LaneFs, lane: &str) -> (r: Result<(), Status>)
    requires
        old(fs).wf(),
    ensures
        final(fs).wf(),
        match r {
            Ok(()) => with_lane(old(fs)@, lane@) == Ok::<Fs, Status>(final(fs)@),
            Err(status) => with_lane(old(fs)@, lane@) == Err::<Fs, Status>(status) && final(fs)@
                == old(fs)@,
        },
{
    match fs.create_lane(lane) {
        Ok(_) => Ok(()),
        Err(error) => Err(status_from_lane_fs_error(&error)),
    }
}

/// Takes what a command wrote into a lane, up to the first entry that fails.
pub fn apply_dirty_entries(fs: &mut LaneFs, lane: &str, list: &Vec<CanonicalEntry>) -> (r: Result<
    (),
    Status,
>)
    requires
        old(fs).wf(),
    ensures
        final(fs).wf(),
        (final(fs)@, fault(r)) == applied(old(fs)@, lane@, sorting::views(list@)),
        r is Ok ==> capture::reads_what_was_left(
            Fs {
                repo: Repo { lanes: old(fs)@.repo.lanes.insert(lane@), ..old(fs)@.repo },
                ..old(fs)@
            },
            final(fs)@,
            lane@,
            sorting::views(list@),
        ),
{
    match add_lane(fs, lane) {
        Err(status) => {
            return Err(status);
        },
        Ok(()) => {},
    }
    let ghost start = fs@;
    let ghost all = sorting::views(list@);
    let mut i: usize = 0;
    assert(all.subrange(0, 0) =~= Seq::empty());
    while i < list.len()
        invariant
            i <= list@.len(),
            fs.wf(),
            with_lane(old(fs)@, lane@) == Ok::<Fs, Status>(start),
            all == sorting::views(list@),
            apply_entries(start, lane@, all.subrange(0, i as int)) == (fs@, None::<Status>),
            capture::reads_what_was_left(start, fs@, lane@, all.subrange(0, i as int)),
        decreases list@.len() - i,
    {
        let path = list[i].path.as_str();
        let ghost now = fs@;
        proof {
            fs.lemma_wf();
            assert(all.subrange(0, i + 1).drop_last() =~= all.subrange(0, i as int));
            assert(all.subrange(0, i + 1).last() == list@[i as int]@);
        }
        let outcome = match &list[i].entry {
            DirtyEntry::File(bytes) => fs.write_file(
                lane,
                path,
                vstd::slice::slice_to_vec(bytes.as_slice()),
            ),
            DirtyEntry::Deleted => fs.delete_file(lane, path),
            DirtyEntry::Directory => match fs.read_file(lane, path) {
                Err(error) => Err(error),
                Ok(None) => Ok(()),
                Ok(Some(_)) => fs.delete_file(lane, path),
            },
        };
        match outcome {
            Err(error) => {
                proof {
                    lemma_apply_error(start, lane@, all, i + 1);
                }
                return Err(status_from_lane_fs_error(&error));
            },
            Ok(()) => {},
        }
        proof {
            capture::lemma_one_more(
                start,
                now,
                fs@,
                lane@,
                all.subrange(0, i as int),
                list@[i as int]@,
            );
            assert(all.subrange(0, i as int).push(list@[i as int]@) =~= all.subrange(0, i + 1));
        }
        i = i + 1;
    }
    assert(all.subrange(0, i as int) =~= all);
    Ok(())
}

/// What a command wrote taken into the lane as it is now stored, and why not all was.
pub open spec fn flushed(latest: Fs, disk: Map<Seq<char>, Names>, view: ViewState) -> (
    Fs,
    Option<Status>,
) {
    if view.dirty.dom() == Set::<Seq<char>>::empty() {
        (latest, None)
    } else {
        match with_lane(latest, view.lane) {
            Err(status) => (latest, Some(status)),
            Ok(there) => match canonical_entries(there, disk, view) {
                Err(status) => (there, Some(status)),
                Ok(list) => applied(there, view.lane, list),
            },
        }
    }
}

/// The changes of a lane at some paths, or the first error.
pub open spec fn changes_at(fs: Fs, lane: Seq<char>, paths: Seq<Seq<char>>) -> Result<
    Seq<ChangeView>,
    Status,
>
    decreases paths.len(),
{
    if paths.len() == 0 {
        Ok(Seq::empty())
    } else {
        match changes_at(fs, lane, paths.drop_last()) {
            Err(status) => Err(status),
            Ok(before) => match vfs::fs_change(fs, lane, paths.last()) {
                Err(error) => Err(nodes::fs_status(error)),
                Ok(Some(change)) => Ok(before.push(change)),
                Ok(None) => Ok(before),
            },
        }
    }
}

proof fn lemma_changes_error(fs: Fs, lane: Seq<char>, paths: Seq<Seq<char>>, n: int)
    requires
        0 <= n <= paths.len(),
        changes_at(fs, lane, paths.subrange(0, n)) is Err,
    ensures
        changes_at(fs, lane, paths) == changes_at(fs, lane, paths.subrange(0, n)),
    decreases paths.len() - n,
{
    if n == paths.len() {
        assert(paths.subrange(0, n) =~= paths);
    } else {
        assert(paths.subrange(0, n + 1).drop_last() =~= paths.subrange(0, n));
        lemma_changes_error(fs, lane, paths, n + 1);
    }
}

/// All changes of a lane, or the first error.
pub open spec fn all_changes(fs: Fs, lane: Seq<char>) -> Result<Seq<ChangeView>, Status> {
    if !fs.repo.lanes.contains(lane) {
        Err(Status::NameNotFound)
    } else {
        changes_at(fs, lane, repo::overlay_listing(fs.repo, lane))
    }
}

fn collect_lane_changes(fs: &LaneFs, lane: &str) -> (r: Result<Vec<LaneFileChange>, Status>)
    requires
        fs.wf(),
    ensures
        (match r {
            Ok(list) => Ok(sorting::views(list@)),
            Err(status) => Err(status),
        }) == all_changes(fs@, lane@),
{
    let paths = match fs.changed_paths(lane) {
        Err(error) => {
            return Err(status_from_lane_fs_error(&error));
        },
        Ok(paths) => paths,
    };
    let ghost all = text::texts(paths@);
    let mut out: Vec<LaneFileChange> = Vec::new();
    let mut i: usize = 0;
    proof {
        assert(all.subrange(0, 0) =~= Seq::empty());
        assert(sorting::views(out@) =~= Seq::empty());
    }
    while i < paths.len()
        invariant
            i <= paths@.len(),
            fs.wf(),
            fs@.repo.lanes.contains(lane@),
            all == text::texts(paths@),
            all == repo::overlay_listing(fs@.repo, lane@),
            changes_at(fs@, lane@, all.subrange(0, i as int)) == Ok::<Seq<ChangeView>, Status>(
                sorting::views(out@),
            ),
        decreases paths@.len() - i,
    {
        let ghost before = sorting::views(out@);
        proof {
            assert(all.subrange(0, i + 1).drop_last() =~= all.subrange(0, i as int));
            assert(all.subrange(0, i + 1).last() == paths@[i as int]@);
        }
        match fs.change_for_path(lane, paths[i].as_str()) {
            Err(error) => {
                proof {
                    lemma_changes_error(fs@, lane@, all, i + 1);
                }
                return Err(status_from_lane_fs_error(&error));
            },
            Ok(None) => {},
            Ok(Some(change)) => {
                let ghost shown = change@;
                out.push(change);
                assert(sorting::views(out@) =~= before.push(shown));
            },
        }
        i = i + 1;
    }
    assert(all.subrange(0, i as int) =~= all);
    Ok(out)
}

/// The changes that the lane has once what the command wrote is taken into it, or the message
/// that says why they cannot be told.
pub open spec fn changes_with(view: ViewState, disk: Map<Seq<char>, Names>) -> Result<
    Seq<ChangeView>,
    Seq<char>,
> {
    match canonical_entries(view.fs, disk, view) {
        Err(status) => Err(nodes::status_message("collect dirty virtual changes"@, status)),
        Ok(list) => match applied(view.fs, view.lane, list) {
            (_, Some(status)) => Err(
                nodes::status_message("collect dirty virtual changes"@, status),
            ),
            (draft, None) => match all_changes(draft, view.lane) {
                Err(status) => Err(nodes::status_message("collect projected lane paths"@, status)),
                Ok(changes) => Ok(changes),
            },
        },
    }
}

impl VirtualLaneState {
    /// Takes what the command wrote into the lane as it is now stored.
    pub fn flush(&self, latest: &mut LaneFs, disk: &DiskTree) -> (r: Result<(), Status>)
        requires
            self.wf(),
            old(latest).wf(),
            disk.wf(),
        ensures
            final(latest).wf(),
            (final(latest)@, fault(r)) == flushed(old(latest)@, disk@, self@),
            self@.dirty.dom() == Set::<Seq<char>>::empty() ==> final(latest)@ == old(latest)@,
            r is Ok && self@.dirty.dom() != Set::<Seq<char>>::empty()
                && capture::writes_normal_paths(self@) ==> capture::captured(
                old(latest)@,
                final(latest)@,
                disk@,
                self@,
            ),
    {
        let nothing = self.dirty.is_empty();
        proof {
            assert(self@.dirty.dom() =~= self.dirty@.dom());
            if nothing {
                assert(self@.dirty.dom() =~= Set::empty());
            } else if self@.dirty.dom() == Set::<Seq<char>>::empty() {
                assert(self.dirty@ =~= Map::empty());
            }
        }
        if nothing {
            return Ok(());
        }
        match add_lane(latest, self.lane.as_str()) {
            Err(status) => {
                return Err(status);
            },
            Ok(()) => {},
        }
        let ghost there = latest@;
        match self.canonicalize_dirty_entries(latest, disk) {
            Err(status) => Err(status),
            Ok(list) => {
                let r = apply_dirty_entries(latest, self.lane.as_str(), &list);
                proof {
                    assert(there.repo.lanes.insert(self@.lane) =~= there.repo.lanes);
                    if r is Ok && capture::writes_normal_paths(self@) {
                        self.dirty.lemma_wf();
                        text_map::lemma_listed_is_finite(self.dirty@.dom());
                        capture::lemma_captured(old(latest)@, latest@, disk@, self@);
                    }
                }
                r
            },
        }
    }

    /// The changes that the lane has once what the command wrote is taken into it.
    pub fn collect_changes(&self, disk: &DiskTree) -> (r: Result<Vec<LaneFileChange>, String>)
        requires
            self.wf(),
            disk.wf(),
        ensures
            (match r {
                Ok(list) => Ok(sorting::views(list@)),
                Err(message) => Err(message@),
            }) == changes_with(self@, disk@),
    {
        let mut draft = self.fs.copy();
        let list = match self.canonicalize_dirty_entries(&draft, disk) {
            Err(status) => {
                return Err(from_status("collect dirty virtual changes", status));
            },
            Ok(list) => list,
        };
        match apply_dirty_entries(&mut draft, self.lane.as_str(), &list) {
            Err(status) => {
                return Err(from_status("collect dirty virtual changes", status));
            },
            Ok(()) => {},
        }
        match collect_lane_changes(&draft, self.lane.as_str()) {
            Err(status) => Err(from_status("collect projected lane paths", status)),
            Ok(changes) => Ok(changes),
        }
    }

    /// The paths that the command wrote.
    pub fn worker_changed_paths(&self, disk: &DiskTree) -> (r: Result<Vec<String>, String>)
        requires
            self.wf(),
            disk.wf(),
        ensures
            (match r {
                Ok(paths) => Ok(text::texts(paths@)),
                Err(message) => Err(message@),
            }) == match canonical_entries(self@.fs, disk@, self@) {
                Ok(list) => Ok(list.map_values(|entry: (Seq<char>, DirtyEntryView)| entry.0)),
                Err(status) => Err::<Seq<Seq<char>>, Seq<char>>(
                    nodes::status_message("collect worker changed paths"@, status),
                ),
            },
    {
        match self.canonicalize_dirty_entries(&self.fs, disk) {
            Err(status) => Err(from_status("collect worker changed paths", status)),
            Ok(list) => {
                let ghost all = sorting::views(list@);
                let mut paths: Vec<String> = Vec::new();
                let mut i: usize = 0;
                while i < list.len()
                    invariant
                        i <= list@.len(),
                        paths@.len() == i,
                        forall|k: int| 0 <= k < i ==> (#[trigger] paths@[k])@ == list@[k]@.0,
                    decreases list@.len() - i,
                {
                    paths.push(list[i].path.clone());
                    i = i + 1;
                }
                assert(text::texts(paths@) =~= all.map_values(
                    |entry: (Seq<char>, DirtyEntryView)| entry.0,
                ));
                Ok(paths)
            },
        }
    }

    /// The paths at which the lane had an overlay when the command began.
    pub fn projected_paths(&self) -> (r: Result<Vec<String>, String>)
        requires
            self.wf(),
        ensures
            match r {
                Ok(paths) => self@.fs.repo.lanes.contains(self@.lane) && text::texts(paths@)
                    == repo::overlay_listing(self@.fs.repo, self@.lane),
                Err(message) => !self@.fs.repo.lanes.contains(self@.lane) && message@
                    == nodes::status_message("collect projected lane paths"@, Status::NameNotFound),
            },
    {
        match self.fs.changed_paths(self.lane.as_str()) {
            Ok(paths) => Ok(paths),
            Err(error) => Err(
                from_status("collect projected lane paths", status_from_lane_fs_error(&error)),
            ),
        }
    }
}

/// The lane that a command is about to run in, created where it is not there, with a copy of the
/// file tree for the command.
pub fn prepare_session_fs(fs: &mut LaneFs, lane: &str) -> (r: Result<LaneFs, Status>)
    requires
        old(fs).wf(),
    ensures
        final(fs).wf(),
        match r {
            Ok(session) => session.wf() && session@ == final(fs)@ && with_lane(old(fs)@, lane@)
                == Ok::<Fs, Status>(final(fs)@),
            Err(status) => with_lane(old(fs)@, lane@) == Err::<Fs, Status>(status) && final(fs)@
                == old(fs)@,
        },
{
    match add_lane(fs, lane) {
        Err(status) => Err(status),
        Ok(()) => Ok(fs.copy()),
    }
}

} // verus!
