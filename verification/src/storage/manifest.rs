//! The manifest: stored lanes as one document.
use vstd::prelude::*;

use crate::lane_file::File;
use crate::numbers;
use crate::numbers::decimal;
use crate::ops;
use crate::repo;
use crate::repo::Repo;
use crate::sorting;
use crate::storage::doctor;
use crate::storage::doctor::BlobInventory;
use crate::storage::encode;
use crate::storage::failures;
use crate::storage::failures::invalid_storage;
use crate::storage::inspect;
use crate::storage::inspect::{remove_stale, StorageCleanup, StorageDoctorReport};
use crate::storage::round_trip;
use crate::storage::rows;
use crate::storage::rows::{
    StoredEntryView, StoredFile, StoredFileView, StoredLaneEntry, StoredOp, StoredOpView,
    StoredRepo, StoredRepoView,
};
use crate::storage::values;
use crate::storage::values::{blob_reference, parse_fingerprint, validate_blob_reference};
use crate::text;
use crate::text::cat;
use crate::text_map;
use crate::text_map::TextMap;
use crate::types;
use crate::types::{
    BaseStorageSnapshot, FileOpStorageSnapshot, LaneEntryStorageSnapshot, LaneFileStorageSnapshot,
    LaneRepoStorageSnapshot,
};

verus! {

/// The version of the manifest.
pub const MANIFEST_VERSION: u32 = 2;

/// What a lane stores for a path.
#[derive(Debug, PartialEq, Eq)]
pub struct ManifestEntry {
    pub lane: String,
    pub entry: StoredLaneEntry,
}

/// A [`ManifestEntry`] as a mathematical value.
pub struct ManifestEntryView {
    pub lane: Seq<char>,
    pub entry: StoredEntryView,
}

impl View for ManifestEntry {
    type V = ManifestEntryView;

    open spec fn view(&self) -> ManifestEntryView {
        ManifestEntryView { lane: self.lane@, entry: self.entry@ }
    }
}

/// What lanes store for a path. A base that is there has a fingerprint.
#[derive(Debug, PartialEq, Eq)]
pub struct ManifestFile {
    pub path: String,
    pub base: Option<String>,
    pub lanes: Vec<ManifestEntry>,
}

/// A [`ManifestFile`] as a mathematical value.
#[verifier::ext_equal]
pub struct ManifestFileView {
    pub path: Seq<char>,
    pub base: Option<Seq<char>>,
    pub lanes: Seq<ManifestEntryView>,
}

impl View for ManifestFile {
    type V = ManifestFileView;

    open spec fn view(&self) -> ManifestFileView {
        ManifestFileView {
            path: self.path@,
            base: text::opt_text(self.base),
            lanes: sorting::views(self.lanes@),
        }
    }
}

/// Stored lanes as one document.
#[derive(Debug, PartialEq, Eq)]
pub struct StoredRepoManifest {
    pub version: u32,
    pub lanes: Vec<String>,
    pub files: Vec<ManifestFile>,
}

/// A [`StoredRepoManifest`] as a mathematical value.
#[verifier::ext_equal]
pub struct ManifestView {
    pub version: nat,
    pub lanes: Seq<Seq<char>>,
    pub files: Seq<ManifestFileView>,
}

impl View for StoredRepoManifest {
    type V = ManifestView;

    open spec fn view(&self) -> ManifestView {
        ManifestView {
            version: self.version as nat,
            lanes: text::texts(self.lanes@),
            files: sorting::views(self.files@),
        }
    }
}

// From a repo to its manifest.

/// What some lanes store for a path.
pub open spec fn manifest_entries(file: File, lanes: Seq<Seq<char>>) -> Seq<ManifestEntryView> {
    lanes.map_values(
        |lane: Seq<char>|
            ManifestEntryView { lane, entry: round_trip::stored_entry(file.lanes[lane]) },
    )
}

/// What lanes store for a path.
pub open spec fn manifest_file(path: Seq<char>, file: File) -> ManifestFileView {
    ManifestFileView {
        path,
        base: values::base_texts(file.base).1,
        lanes: manifest_entries(file, encode::lane_order(file)),
    }
}

/// The manifest of a repo.
pub open spec fn manifest_of(state: Repo) -> ManifestView {
    ManifestView {
        version: MANIFEST_VERSION as nat,
        lanes: text_map::listing(state.lanes),
        files: text_map::listing(state.files.dom()).map_values(
            |path: Seq<char>| manifest_file(path, state.files[path]),
        ),
    }
}

fn stored_op(op: &FileOpStorageSnapshot) -> (r: StoredOp)
    ensures
        r@ == round_trip::stored_op(op@),
{
    StoredOp {
        id: op.id,
        base_start: op.base_start,
        base_len: op.base_len,
        order_key: op.order_key.clone(),
        inserted_blob: blob_reference(op.inserted.as_slice()),
        inserted_len: op.inserted.len() as u64,
    }
}

/// An entry in stored form.
pub fn stored_entry_from_snapshot(entry: &LaneEntryStorageSnapshot) -> (r: StoredLaneEntry)
    ensures
        r@ == round_trip::stored_entry(entry@),
{
    match entry {
        LaneEntryStorageSnapshot::Deleted => StoredLaneEntry::Deleted,
        LaneEntryStorageSnapshot::Present(list) => {
            let mut out: Vec<StoredOp> = Vec::new();
            let mut i: usize = 0;
            while i < list.len()
                invariant
                    i <= list@.len(),
                    out@.len() == i,
                    forall|k: int|
                        0 <= k < i ==> (#[trigger] out@[k])@ == round_trip::stored_op(list@[k]@),
                decreases list@.len() - i,
            {
                out.push(stored_op(&list[i]));
                i = i + 1;
            }
            assert(sorting::views(out@) =~= round_trip::stored_ops(ops::stored_ops_view(list@)));
            StoredLaneEntry::Present(out)
        },
    }
}

fn base_fingerprint(base: &BaseStorageSnapshot) -> (r: Option<String>)
    ensures
        text::opt_text(r) == values::base_texts(base@).1,
{
    values::stored_base(base).1
}

fn manifest_file_of(path: &str, file: &LaneFileStorageSnapshot) -> (r: ManifestFile)
    requires
        file.lanes.wf(),
    ensures
        r@ == manifest_file(path@, file@),
{
    let ghost keys = file.lanes.keys();
    let mut lanes: Vec<ManifestEntry> = Vec::new();
    let mut i: usize = 0;
    proof {
        file.lanes.lemma_wf();
        assert(file@.lanes.dom() =~= file.lanes@.dom());
    }
    while i < file.lanes.len()
        invariant
            i <= file.lanes.pairs().len(),
            file.lanes.wf(),
            keys == file.lanes.keys(),
            lanes@.len() == i,
            forall|k: int|
                0 <= k < i ==> (#[trigger] lanes@[k])@ == (ManifestEntryView {
                    lane: keys[k],
                    entry: round_trip::stored_entry(file@.lanes[keys[k]]),
                }),
        decreases file.lanes.pairs().len() - i,
    {
        let lane = file.lanes.key_at(i);
        let entry = file.lanes.value_at(i);
        proof {
            file.lanes.lemma_wf();
            assert(file.lanes@.contains_key(file.lanes.pairs()[i as int].0));
            assert(file@.lanes[lane@] == entry@);
            assert(keys[i as int] == lane@);
        }
        lanes.push(
            ManifestEntry { lane: lane.to_owned(), entry: stored_entry_from_snapshot(entry) },
        );
        i = i + 1;
    }
    assert(sorting::views(lanes@) =~= manifest_entries(file@, keys));
    ManifestFile { path: path.to_owned(), base: base_fingerprint(&file.base), lanes }
}

/// The manifest of a repo.
pub fn manifest_from_snapshot(snapshot: &LaneRepoStorageSnapshot) -> (r: StoredRepoManifest)
    requires
        repo::snapshot_wf(*snapshot),
    ensures
        r@ == manifest_of(snapshot@),
{
    let mut lanes: Vec<String> = Vec::new();
    let ghost lane_keys = snapshot.lanes.keys();
    let mut i: usize = 0;
    proof {
        snapshot.lanes.lemma_wf();
        snapshot.files.lemma_wf();
    }
    while i < snapshot.lanes.len()
        invariant
            i <= snapshot.lanes.pairs().len(),
            lane_keys == snapshot.lanes.keys(),
            lanes@.len() == i,
            forall|k: int| 0 <= k < i ==> (#[trigger] lanes@[k])@ == lane_keys[k],
        decreases snapshot.lanes.pairs().len() - i,
    {
        lanes.push(snapshot.lanes.key_at(i).to_owned());
        i = i + 1;
    }
    assert(text::texts(lanes@) =~= lane_keys);
    let ghost shown = snapshot@.files;
    let ghost keys = snapshot.files.keys();
    let mut files: Vec<ManifestFile> = Vec::new();
    let mut j: usize = 0;
    assert(shown.dom() =~= snapshot.files@.dom());
    while j < snapshot.files.len()
        invariant
            j <= snapshot.files.pairs().len(),
            repo::snapshot_wf(*snapshot),
            keys == snapshot.files.keys(),
            shown == snapshot@.files,
            files@.len() == j,
            forall|k: int|
                0 <= k < j ==> (#[trigger] files@[k])@ == manifest_file(keys[k], shown[keys[k]]),
        decreases snapshot.files.pairs().len() - j,
    {
        let path = snapshot.files.key_at(j);
        let file = snapshot.files.value_at(j);
        proof {
            snapshot.files.lemma_wf();
            assert(snapshot.files@.contains_key(snapshot.files.pairs()[j as int].0));
            assert(shown[path@] == file@);
            assert(keys[j as int] == path@);
        }
        files.push(manifest_file_of(path, file));
        j = j + 1;
    }
    assert(sorting::views(files@) =~= keys.map_values(
        |path: Seq<char>| manifest_file(path, shown[path]),
    ));
    StoredRepoManifest { version: MANIFEST_VERSION, lanes, files }
}

// From a manifest to stored lanes.

/// Lanes with one more entry; a later one takes the place of an earlier.
pub open spec fn entry_map(entries: Seq<ManifestEntryView>) -> Map<Seq<char>, StoredEntryView>
    decreases entries.len(),
{
    if entries.len() == 0 {
        Map::empty()
    } else {
        entry_map(entries.drop_last()).insert(entries.last().lane, entries.last().entry)
    }
}

/// What lanes store for a path.
pub open spec fn stored_file(file: ManifestFileView) -> Result<StoredFileView, Seq<char>> {
    match file.base {
        None => Ok(StoredFileView { base: None, lanes: entry_map(file.lanes) }),
        Some(fingerprint) => match values::parsed_fingerprint(fingerprint) {
            Err(message) => Err(message),
            Ok(fingerprint) => Ok(
                StoredFileView { base: Some(fingerprint), lanes: entry_map(file.lanes) },
            ),
        },
    }
}

/// What lanes store for paths.
pub open spec fn stored_files(files: Seq<ManifestFileView>) -> Result<
    Map<Seq<char>, StoredFileView>,
    Seq<char>,
>
    decreases files.len(),
{
    if files.len() == 0 {
        Ok(Map::empty())
    } else {
        match stored_files(files.drop_last()) {
            Err(message) => Err(message),
            Ok(before) => match stored_file(files.last()) {
                Err(message) => Err(message),
                Ok(file) => Ok(before.insert(files.last().path, file)),
            },
        }
    }
}

/// The message about a manifest of another version.
pub open spec fn version_fault(version: nat) -> Option<Seq<char>> {
    if version == MANIFEST_VERSION {
        None
    } else {
        Some(
            text::flat(
                seq![
                    "unsupported lane storage version "@,
                    numbers::decimal_text(version),
                    "; expected "@,
                    numbers::decimal_text(MANIFEST_VERSION as nat),
                ],
            ),
        )
    }
}

/// The stored lanes that a manifest holds.
pub open spec fn stored_of_manifest(manifest: ManifestView, path: Seq<char>) -> Result<
    StoredRepoView,
    Seq<char>,
> {
    match version_fault(manifest.version) {
        Some(message) => Err(failures::invalid_storage_text(path, message)),
        None => match stored_files(manifest.files) {
            Err(message) => Err(message),
            Ok(files) => Ok(
                StoredRepoView {
                    version: manifest.version,
                    lanes: manifest.lanes.to_set(),
                    files,
                },
            ),
        },
    }
}

proof fn lemma_stored_files_error(files: Seq<ManifestFileView>, n: int)
    requires
        0 <= n <= files.len(),
        stored_files(files.subrange(0, n)) is Err,
    ensures
        stored_files(files) == stored_files(files.subrange(0, n)),
    decreases files.len() - n,
{
    if n == files.len() {
        assert(files.subrange(0, n) =~= files);
    } else {
        assert(files.subrange(0, n + 1).drop_last() =~= files.subrange(0, n));
        lemma_stored_files_error(files, n + 1);
    }
}

fn check_version(manifest: &StoredRepoManifest) -> (r: Option<String>)
    ensures
        text::opt_text(r) == version_fault(manifest.version as nat),
{
    if manifest.version == MANIFEST_VERSION {
        return None;
    }
    let version = decimal(manifest.version as u64);
    let expected = decimal(MANIFEST_VERSION as u64);
    let parts: Vec<&str> = vec![
        "unsupported lane storage version ",
        version.as_str(),
        "; expected ",
        expected.as_str(),
    ];
    assert(text::strs(parts@) =~= seq![
        "unsupported lane storage version "@,
        version@,
        "; expected "@,
        expected@,
    ]);
    Some(cat(parts))
}

fn copy_op(op: &StoredOp) -> (r: StoredOp)
    ensures
        r@ == op@,
{
    StoredOp {
        id: op.id,
        base_start: op.base_start,
        base_len: op.base_len,
        order_key: op.order_key.clone(),
        inserted_blob: op.inserted_blob.clone(),
        inserted_len: op.inserted_len,
    }
}

fn copy_entry(entry: &StoredLaneEntry) -> (r: StoredLaneEntry)
    ensures
        r@ == entry@,
{
    match entry {
        StoredLaneEntry::Deleted => StoredLaneEntry::Deleted,
        StoredLaneEntry::Present(list) => {
            let mut out: Vec<StoredOp> = Vec::new();
            let mut i: usize = 0;
            while i < list.len()
                invariant
                    i <= list@.len(),
                    out@.len() == i,
                    forall|k: int| 0 <= k < i ==> (#[trigger] out@[k])@ == list@[k]@,
                decreases list@.len() - i,
            {
                out.push(copy_op(&list[i]));
                i = i + 1;
            }
            assert(sorting::views(out@) =~= sorting::views(list@));
            StoredLaneEntry::Present(out)
        },
    }
}

fn read_manifest_file(file: &ManifestFile) -> (r: Result<StoredFile, String>)
    ensures
        match r {
            Ok(stored) => stored.lanes.wf() && stored_file(file@) == Ok::<
                StoredFileView,
                Seq<char>,
            >(stored@),
            Err(message) => stored_file(file@) == Err::<StoredFileView, Seq<char>>(message@),
        },
{
    let base = match &file.base {
        None => BaseStorageSnapshot::Missing,
        Some(fingerprint) => match parse_fingerprint(fingerprint.as_str()) {
            Err(message) => {
                return Err(message);
            },
            Ok(fingerprint) => BaseStorageSnapshot::Present(fingerprint),
        },
    };
    let ghost all = sorting::views(file.lanes@);
    let mut lanes: TextMap<StoredLaneEntry> = TextMap::new();
    let mut i: usize = 0;
    proof {
        assert(all.subrange(0, 0) =~= Seq::empty());
        assert(lanes@.map_values(|entry: StoredLaneEntry| entry@) =~= Map::empty());
    }
    while i < file.lanes.len()
        invariant
            i <= file.lanes@.len(),
            all == sorting::views(file.lanes@),
            lanes.wf(),
            lanes@.map_values(|entry: StoredLaneEntry| entry@) == entry_map(
                all.subrange(0, i as int),
            ),
        decreases file.lanes@.len() - i,
    {
        let entry = &file.lanes[i];
        let ghost before = lanes@.map_values(|entry: StoredLaneEntry| entry@);
        proof {
            assert(all.subrange(0, i + 1).drop_last() =~= all.subrange(0, i as int));
            assert(all.subrange(0, i + 1).last() == entry@);
        }
        let _ = lanes.insert(entry.lane.clone(), copy_entry(&entry.entry));
        assert(lanes@.map_values(|entry: StoredLaneEntry| entry@) =~= before.insert(
            entry@.lane,
            entry@.entry,
        ));
        i = i + 1;
    }
    assert(all.subrange(0, i as int) =~= all);
    Ok(StoredFile { base, lanes })
}

/// The stored lanes that a manifest holds. The message names the file that it was read from.
pub fn stored_from_manifest(manifest: &StoredRepoManifest, path: &str) -> (r: Result<
    StoredRepo,
    String,
>)
    ensures
        match r {
            Ok(stored) => stored.wf() && stored_of_manifest(manifest@, path@) == Ok::<
                StoredRepoView,
                Seq<char>,
            >(stored@),
            Err(message) => stored_of_manifest(manifest@, path@) == Err::<
                StoredRepoView,
                Seq<char>,
            >(message@),
        },
{
    match check_version(manifest) {
        Some(message) => {
            return Err(invalid_storage(path, message.as_str()));
        },
        None => {},
    }
    let ghost all = sorting::views(manifest.files@);
    let mut files: TextMap<StoredFile> = TextMap::new();
    let mut i: usize = 0;
    proof {
        assert(all.subrange(0, 0) =~= Seq::empty());
        assert(rows::file_map(files@) =~= Map::empty());
    }
    while i < manifest.files.len()
        invariant
            i <= manifest.files@.len(),
            all == sorting::views(manifest.files@),
            manifest.version == MANIFEST_VERSION,
            rows::files_wf(files),
            stored_files(all.subrange(0, i as int)) == Ok::<
                Map<Seq<char>, StoredFileView>,
                Seq<char>,
            >(rows::file_map(files@)),
        decreases manifest.files@.len() - i,
    {
        let file = &manifest.files[i];
        let ghost before = rows::file_map(files@);
        proof {
            assert(all.subrange(0, i + 1).drop_last() =~= all.subrange(0, i as int));
            assert(all.subrange(0, i + 1).last() == file@);
        }
        match read_manifest_file(file) {
            Err(message) => {
                proof {
                    lemma_stored_files_error(all, i + 1);
                }
                return Err(message);
            },
            Ok(stored) => {
                let ghost shown = stored@;
                let _ = files.insert(file.path.clone(), stored);
                assert(rows::file_map(files@) =~= before.insert(file@.path, shown));
            },
        }
        i = i + 1;
    }
    assert(all.subrange(0, i as int) =~= all);
    let ghost names = text::texts(manifest.lanes@);
    let mut lanes: TextMap<()> = TextMap::new();
    let mut j: usize = 0;
    while j < manifest.lanes.len()
        invariant
            j <= manifest.lanes@.len(),
            names == text::texts(manifest.lanes@),
            lanes.wf(),
            forall|k: Seq<char>| #[trigger] lanes@.contains_key(k) ==> names.contains(k),
            forall|m: int| 0 <= m < j ==> lanes@.contains_key(#[trigger] names[m]),
        decreases manifest.lanes@.len() - j,
    {
        assert(names[j as int] == manifest.lanes@[j as int]@);
        let _ = lanes.insert(manifest.lanes[j].clone(), ());
        j = j + 1;
    }
    proof {
        assert forall|k: Seq<char>| names.contains(k) implies #[trigger] lanes@.contains_key(k) by {
            let m = choose|m: int| 0 <= m < names.len() && names[m] == k;
            assert(lanes@.contains_key(names[m]));
        }
        assert(lanes@.dom() =~= names.to_set());
    }
    Ok(StoredRepo { version: manifest.version, lanes, files })
}

// What a manifest refers to.

/// The operations of some entries.
pub open spec fn entries_ops(entries: Seq<ManifestEntryView>) -> Seq<StoredOpView>
    decreases entries.len(),
{
    if entries.len() == 0 {
        Seq::empty()
    } else {
        entries_ops(entries.drop_last()) + doctor::entry_ops(entries.last().entry)
    }
}

/// The operations of some files.
pub open spec fn manifest_ops(files: Seq<ManifestFileView>) -> Seq<StoredOpView>
    decreases files.len(),
{
    if files.len() == 0 {
        Seq::empty()
    } else {
        manifest_ops(files.drop_last()) + entries_ops(files.last().lanes)
    }
}

/// The names that operations refer to, or what is wrong with the first that is no proper name.
pub open spec fn op_references(list: Seq<StoredOpView>) -> Result<Set<Seq<char>>, Seq<char>>
    decreases list.len(),
{
    if list.len() == 0 {
        Ok(Set::empty())
    } else {
        match op_references(list.drop_last()) {
            Err(message) => Err(message),
            Ok(before) => match values::blob_fault(list.last().inserted_blob) {
                Some(fault) => Err(fault),
                None => Ok(before.insert(list.last().inserted_blob)),
            },
        }
    }
}

/// The names that a manifest refers to.
pub open spec fn manifest_references(manifest: ManifestView, path: Seq<char>) -> Result<
    Set<Seq<char>>,
    Seq<char>,
> {
    match version_fault(manifest.version) {
        Some(message) => Err(failures::invalid_storage_text(path, message)),
        None => op_references(manifest_ops(manifest.files)),
    }
}

fn push_entry_ops<'a>(out: &mut Vec<&'a StoredOp>, entry: &'a StoredLaneEntry)
    ensures
        sorting::views(final(out)@) == sorting::views(old(out)@) + doctor::entry_ops(entry@),
{
    let ghost start = sorting::views(out@);
    match entry {
        StoredLaneEntry::Deleted => {
            assert(start + doctor::entry_ops(entry@) =~= start);
        },
        StoredLaneEntry::Present(list) => {
            let ghost all = sorting::views(list@);
            let mut i: usize = 0;
            assert(start =~= start + all.subrange(0, 0));
            while i < list.len()
                invariant
                    i <= list@.len(),
                    all == sorting::views(list@),
                    sorting::views(out@) == start + all.subrange(0, i as int),
                decreases list@.len() - i,
            {
                let ghost before = sorting::views(out@);
                out.push(&list[i]);
                proof {
                    assert(sorting::views(out@) =~= before.push(list@[i as int]@));
                    assert(sorting::views(out@) =~= start + all.subrange(0, i + 1));
                }
                i = i + 1;
            }
            assert(all.subrange(0, i as int) =~= all);
        },
    }
}

fn push_entries_ops<'a>(out: &mut Vec<&'a StoredOp>, entries: &'a Vec<ManifestEntry>)
    ensures
        sorting::views(final(out)@) == sorting::views(old(out)@) + entries_ops(
            sorting::views(entries@),
        ),
{
    let ghost start = sorting::views(out@);
    let ghost all = sorting::views(entries@);
    let mut i: usize = 0;
    assert(start =~= start + entries_ops(all.subrange(0, 0)));
    while i < entries.len()
        invariant
            i <= entries@.len(),
            all == sorting::views(entries@),
            sorting::views(out@) == start + entries_ops(all.subrange(0, i as int)),
        decreases entries@.len() - i,
    {
        proof {
            assert(all.subrange(0, i + 1).drop_last() =~= all.subrange(0, i as int));
            assert(all.subrange(0, i + 1).last() == entries@[i as int]@);
        }
        push_entry_ops(out, &entries[i].entry);
        assert(sorting::views(out@) =~= start + entries_ops(all.subrange(0, i + 1)));
        i = i + 1;
    }
    assert(all.subrange(0, i as int) =~= all);
}

fn collect_manifest_ops<'a>(manifest: &'a StoredRepoManifest) -> (r: Vec<&'a StoredOp>)
    ensures
        sorting::views(r@) == manifest_ops(manifest@.files),
{
    let mut out: Vec<&'a StoredOp> = Vec::new();
    let ghost all = sorting::views(manifest.files@);
    let mut i: usize = 0;
    assert(sorting::views(out@) =~= manifest_ops(all.subrange(0, 0)));
    while i < manifest.files.len()
        invariant
            i <= manifest.files@.len(),
            all == sorting::views(manifest.files@),
            sorting::views(out@) == manifest_ops(all.subrange(0, i as int)),
        decreases manifest.files@.len() - i,
    {
        proof {
            assert(all.subrange(0, i + 1).drop_last() =~= all.subrange(0, i as int));
            assert(all.subrange(0, i + 1).last() == manifest.files@[i as int]@);
        }
        push_entries_ops(&mut out, &manifest.files[i].lanes);
        i = i + 1;
    }
    assert(all.subrange(0, i as int) =~= all);
    out
}

proof fn lemma_op_references_error(list: Seq<StoredOpView>, n: int)
    requires
        0 <= n <= list.len(),
        op_references(list.subrange(0, n)) is Err,
    ensures
        op_references(list) == op_references(list.subrange(0, n)),
    decreases list.len() - n,
{
    if n == list.len() {
        assert(list.subrange(0, n) =~= list);
    } else {
        assert(list.subrange(0, n + 1).drop_last() =~= list.subrange(0, n));
        lemma_op_references_error(list, n + 1);
    }
}

/// The names that a manifest refers to.
pub fn referenced_blobs(manifest: &StoredRepoManifest, path: &str) -> (r: Result<
    TextMap<()>,
    String,
>)
    ensures
        match r {
            Ok(names) => names.wf() && manifest_references(manifest@, path@) == Ok::<
                Set<Seq<char>>,
                Seq<char>,
            >(names@.dom()),
            Err(message) => manifest_references(manifest@, path@) == Err::<
                Set<Seq<char>>,
                Seq<char>,
            >(message@),
        },
{
    match check_version(manifest) {
        Some(message) => {
            return Err(invalid_storage(path, message.as_str()));
        },
        None => {},
    }
    let list = collect_manifest_ops(manifest);
    let ghost all = sorting::views(list@);
    let mut names: TextMap<()> = TextMap::new();
    let mut i: usize = 0;
    proof {
        assert(all.subrange(0, 0) =~= Seq::empty());
        assert(names@.dom() =~= Set::empty());
    }
    while i < list.len()
        invariant
            i <= list@.len(),
            all == sorting::views(list@),
            all == manifest_ops(manifest@.files),
            manifest.version == MANIFEST_VERSION,
            names.wf(),
            op_references(all.subrange(0, i as int)) == Ok::<Set<Seq<char>>, Seq<char>>(
                names@.dom(),
            ),
        decreases list@.len() - i,
    {
        let op: &StoredOp = list[i];
        let ghost before = names@.dom();
        proof {
            assert(all.subrange(0, i + 1).drop_last() =~= all.subrange(0, i as int));
            assert(all.subrange(0, i + 1).last() == op@);
        }
        match validate_blob_reference(op.inserted_blob.as_str()) {
            Err(fault) => {
                proof {
                    lemma_op_references_error(all, i + 1);
                }
                return Err(fault);
            },
            Ok(()) => {},
        }
        let _ = names.insert(op.inserted_blob.clone(), ());
        assert(names@.dom() =~= before.insert(op@.inserted_blob));
        i = i + 1;
    }
    assert(all.subrange(0, i as int) =~= all);
    Ok(names)
}

/// Why what a manifest does not refer to cannot be removed.
pub open spec fn gc_fault(present: bool, errors: nat, references: Result<Set<Seq<char>>, Seq<char>>) -> Option<
    Seq<char>,
> {
    if !present {
        Some("cannot gc lane storage without repo.json"@)
    } else if errors > 0 {
        Some("cannot gc unhealthy lane storage; run lane doctor first"@)
    } else {
        match references {
            Err(message) => Some(message),
            Ok(_) => None,
        }
    }
}

/// The removal of byte strings that a manifest does not refer to.
pub fn gc_storage(
    present: bool,
    report: &StorageDoctorReport,
    manifest: &StoredRepoManifest,
    path: &str,
    inventory: &BlobInventory,
) -> (r: Result<StorageCleanup, String>)
    requires
        inventory.wf(),
        inspect::total_bytes(inventory_bytes(inventory@)) <= u64::MAX,
    ensures
        match r {
            Ok(cleanup) => {
                &&& gc_fault(
                    present,
                    report@.errors.len(),
                    manifest_references(manifest@, path@),
                ) is None
                &&& inspect::cleans(
                    inventory@,
                    manifest_references(manifest@, path@)->Ok_0,
                    cleanup,
                )
            },
            Err(message) => gc_fault(
                present,
                report@.errors.len(),
                manifest_references(manifest@, path@),
            ) == Some(message@),
        },
{
    if !present {
        return Err("cannot gc lane storage without repo.json".to_owned());
    }
    if !report.is_healthy() {
        return Err("cannot gc unhealthy lane storage; run lane doctor first".to_owned());
    }
    match referenced_blobs(manifest, path) {
        Err(message) => Err(message),
        Ok(names) => {
            proof {
                inventory.files.lemma_wf();
                assert(inventory@.files.dom() =~= inventory.files@.dom());
                lemma_stale_is_less(inventory@.files, names@.dom());
            }
            Ok(remove_stale(inventory, &names))
        },
    }
}

/// The files of an inventory in the order of their names.
pub open spec fn inventory_bytes(inventory: doctor::BlobInventoryView) -> Seq<doctor::BlobFileView> {
    text_map::listing(inventory.files.dom()).map_values(|name: Seq<char>| inventory.files[name])
}

proof fn lemma_filtered_is_less(
    files: Map<Seq<char>, doctor::BlobFileView>,
    known: Set<Seq<char>>,
    names: Seq<Seq<char>>,
)
    ensures
        inspect::total_bytes(
            inspect::stale_names(known, names).map_values(|name: Seq<char>| files[name]),
        ) <= inspect::total_bytes(names.map_values(|name: Seq<char>| files[name])),
    decreases names.len(),
{
    reveal(Seq::filter);
    let at = |name: Seq<char>| files[name];
    if names.len() > 0 {
        let rest = names.drop_last();
        lemma_filtered_is_less(files, known, rest);
        let fewer = inspect::stale_names(known, rest);
        let stale = inspect::stale_names(known, names);
        assert(names.map_values(at).drop_last() =~= rest.map_values(at));
        if !known.contains(names.last()) {
            assert(stale =~= fewer.push(names.last()));
            assert(stale.map_values(at).drop_last() =~= fewer.map_values(at));
        } else {
            assert(stale =~= fewer);
        }
    }
}

proof fn lemma_stale_is_less(files: Map<Seq<char>, doctor::BlobFileView>, known: Set<Seq<char>>)
    ensures
        inspect::total_bytes(inspect::stale_files(files, known)) <= inspect::total_bytes(
            text_map::listing(files.dom()).map_values(|name: Seq<char>| files[name]),
        ),
{
    lemma_filtered_is_less(files, known, text_map::listing(files.dom()));
}

// Laws.

proof fn lemma_entry_map(file: File, lanes: Seq<Seq<char>>)
    ensures
        entry_map(manifest_entries(file, lanes)) == Map::new(
            |l: Seq<char>| lanes.contains(l),
            |l: Seq<char>| round_trip::stored_entry(file.lanes[l]),
        ),
    decreases lanes.len(),
{
    let goal = Map::new(
        |l: Seq<char>| lanes.contains(l),
        |l: Seq<char>| round_trip::stored_entry(file.lanes[l]),
    );
    let all = manifest_entries(file, lanes);
    if lanes.len() == 0 {
        assert(entry_map(all) =~= goal);
    } else {
        let rest = lanes.drop_last();
        lemma_entry_map(file, rest);
        assert(all.drop_last() =~= manifest_entries(file, rest));
        assert forall|l: Seq<char>| lanes.contains(l) <==> rest.contains(l) || l == lanes.last() by {
            if lanes.contains(l) {
                let i = choose|i: int| 0 <= i < lanes.len() && lanes[i] == l;
                if i < rest.len() {
                    assert(rest[i] == l);
                }
            }
            if rest.contains(l) {
                let i = choose|i: int| 0 <= i < rest.len() && rest[i] == l;
                assert(lanes[i] == l);
            }
            assert(lanes[lanes.len() - 1] == lanes.last());
        }
        assert(entry_map(all) =~= goal);
    }
}

proof fn lemma_manifest_files(state: Repo, paths: Seq<Seq<char>>)
    requires
        round_trip::storable(state),
        forall|i: int| 0 <= i < paths.len() ==> state.files.contains_key(#[trigger] paths[i]),
    ensures
        stored_files(
            paths.map_values(|path: Seq<char>| manifest_file(path, state.files[path])),
        ) == Ok::<Map<Seq<char>, StoredFileView>, Seq<char>>(
            round_trip::stage(state.files, paths.to_set(), Set::full(), Set::full()),
        ),
    decreases paths.len(),
{
    let shown = |path: Seq<char>| manifest_file(path, state.files[path]);
    let all = paths.map_values(shown);
    let goal = round_trip::stage(state.files, paths.to_set(), Set::full(), Set::full());
    if paths.len() == 0 {
        assert(goal =~= Map::empty());
    } else {
        let rest = paths.drop_last();
        let path = paths.last();
        assert forall|i: int| 0 <= i < rest.len() implies state.files.contains_key(#[trigger] rest[i]) by {
            assert(state.files.contains_key(paths[i]));
        }
        lemma_manifest_files(state, rest);
        assert(all.drop_last() =~= rest.map_values(shown));
        assert(state.files.contains_key(paths[paths.len() - 1]));
        let file = state.files[path];
        assert(round_trip::file_fits(path, file));
        let lanes = encode::lane_order(file);
        text_map::lemma_listing_exists(file.lanes.dom());
        lemma_entry_map(file, lanes);
        let whole = round_trip::stage_file(file, Set::full(), Set::full());
        assert forall|l: Seq<char>| lanes.contains(l) <==> file.lanes.contains_key(l) by {
            assert(lanes.contains(l) <==> file.lanes.dom().contains(l));
        }
        assert(entry_map(manifest_entries(file, lanes)) =~= whole.lanes);
        match file.base {
            Some(fingerprint) => {
                round_trip::law_fingerprint_round_trip(fingerprint);
            },
            None => {},
        }
        assert(stored_file(manifest_file(path, file)) == Ok::<StoredFileView, Seq<char>>(whole));
        assert forall|p: Seq<char>| paths.to_set().contains(p) <==> rest.to_set().contains(p) || p
            == path by {
            if paths.contains(p) {
                let i = choose|i: int| 0 <= i < paths.len() && paths[i] == p;
                if i < rest.len() {
                    assert(rest[i] == p);
                }
            }
            if rest.contains(p) {
                let i = choose|i: int| 0 <= i < rest.len() && rest[i] == p;
                assert(paths[i] == p);
            }
            assert(paths[paths.len() - 1] == path);
        }
        let before = round_trip::stage(state.files, rest.to_set(), Set::full(), Set::full());
        assert(goal =~= before.insert(path, whole));
    }
}

/// The manifest of a repo holds the stored form of that repo.
pub proof fn law_manifest_round_trip(state: Repo, path: Seq<char>)
    requires
        round_trip::storable(state),
    ensures
        stored_of_manifest(manifest_of(state), path) == Ok::<StoredRepoView, Seq<char>>(
            StoredRepoView {
                version: MANIFEST_VERSION as nat,
                ..round_trip::stored_repo(state)
            },
        ),
{
    let paths = text_map::listing(state.files.dom());
    let lanes = text_map::listing(state.lanes);
    text_map::lemma_listing_exists(state.files.dom());
    text_map::lemma_listing_exists(state.lanes);
    assert forall|i: int| 0 <= i < paths.len() implies state.files.contains_key(#[trigger] paths[i]) by {
        assert(paths.contains(paths[i]));
    }
    lemma_manifest_files(state, paths);
    assert forall|p: Seq<char>| state.files.contains_key(p) implies paths.to_set().contains(p) by {
        assert(paths.contains(p) <==> state.files.dom().contains(p));
    }
    assert(round_trip::stage(state.files, paths.to_set(), Set::full(), Set::full())
        =~= round_trip::stage(state.files, Set::full(), Set::full(), Set::full()));
    assert forall|l: Seq<char>| lanes.to_set().contains(l) <==> state.lanes.contains(l) by {
        assert(lanes.contains(l) <==> state.lanes.contains(l));
    }
    assert(lanes.to_set() =~= state.lanes);
}

} // verus!
