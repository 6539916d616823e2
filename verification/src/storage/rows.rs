//! A repo as rows of tables, and back.
use vstd::prelude::*;

use crate::numbers;
use crate::numbers::decimal;
use crate::ops;
use crate::sorting;
use crate::storage::values;
use crate::storage::values::{parse_base, parse_u64, parse_version};
use crate::text;
use crate::text::{cat, text_eq};
use crate::text_map;
use crate::text_map::TextMap;
use crate::types;
use crate::types::{debug_quoted, BaseStorageSnapshot, FilePath, LaneId};

verus! {

/// A row of the table of files.
#[derive(Debug, PartialEq, Eq)]
pub struct FileRow {
    pub path: String,
    pub base_state: String,
    pub base_fingerprint: Option<String>,
}

/// A [`FileRow`] as a mathematical value.
#[verifier::ext_equal]
pub struct FileRowView {
    pub path: Seq<char>,
    pub base_state: Seq<char>,
    pub base_fingerprint: Option<Seq<char>>,
}

impl View for FileRow {
    type V = FileRowView;

    open spec fn view(&self) -> FileRowView {
        FileRowView {
            path: self.path@,
            base_state: self.base_state@,
            base_fingerprint: text::opt_text(self.base_fingerprint),
        }
    }
}

/// A row of the table of lane entries.
#[derive(Debug, PartialEq, Eq)]
pub struct EntryRow {
    pub path: String,
    pub lane: String,
    pub state: String,
}

/// An [`EntryRow`] as a mathematical value.
#[verifier::ext_equal]
pub struct EntryRowView {
    pub path: Seq<char>,
    pub lane: Seq<char>,
    pub state: Seq<char>,
}

impl View for EntryRow {
    type V = EntryRowView;

    open spec fn view(&self) -> EntryRowView {
        EntryRowView { path: self.path@, lane: self.lane@, state: self.state@ }
    }
}

/// A row of the table of operations.
#[derive(Debug, PartialEq, Eq)]
pub struct OpRow {
    pub path: String,
    pub lane: String,
    pub ordinal: usize,
    pub id: String,
    pub base_start: String,
    pub base_len: String,
    pub order_key: String,
    pub inserted_blob: String,
    pub inserted_len: String,
}

/// An [`OpRow`] as a mathematical value.
#[verifier::ext_equal]
pub struct OpRowView {
    pub path: Seq<char>,
    pub lane: Seq<char>,
    pub ordinal: nat,
    pub id: Seq<char>,
    pub base_start: Seq<char>,
    pub base_len: Seq<char>,
    pub order_key: Seq<char>,
    pub inserted_blob: Seq<char>,
    pub inserted_len: Seq<char>,
}

impl View for OpRow {
    type V = OpRowView;

    open spec fn view(&self) -> OpRowView {
        OpRowView {
            path: self.path@,
            lane: self.lane@,
            ordinal: self.ordinal as nat,
            id: self.id@,
            base_start: self.base_start@,
            base_len: self.base_len@,
            order_key: self.order_key@,
            inserted_blob: self.inserted_blob@,
            inserted_len: self.inserted_len@,
        }
    }
}

/// The tables of a stored repo. Rows come in the order of their keys.
#[derive(Debug, PartialEq, Eq)]
pub struct StoreRows {
    pub version: String,
    pub lanes: Vec<String>,
    pub files: Vec<FileRow>,
    pub entries: Vec<EntryRow>,
    pub ops: Vec<OpRow>,
}

/// A [`StoreRows`] as a mathematical value.
#[verifier::ext_equal]
pub struct StoreRowsView {
    pub version: Seq<char>,
    pub lanes: Seq<Seq<char>>,
    pub files: Seq<FileRowView>,
    pub entries: Seq<EntryRowView>,
    pub ops: Seq<OpRowView>,
}

impl View for StoreRows {
    type V = StoreRowsView;

    open spec fn view(&self) -> StoreRowsView {
        StoreRowsView {
            version: self.version@,
            lanes: text::texts(self.lanes@),
            files: sorting::views(self.files@),
            entries: sorting::views(self.entries@),
            ops: sorting::views(self.ops@),
        }
    }
}

/// A stored operation: its bytes are kept elsewhere, under a name.
#[derive(Debug, PartialEq, Eq)]
pub struct StoredOp {
    pub id: u64,
    pub base_start: u64,
    pub base_len: u64,
    pub order_key: String,
    pub inserted_blob: String,
    pub inserted_len: u64,
}

/// A [`StoredOp`] as a mathematical value.
#[verifier::ext_equal]
pub struct StoredOpView {
    pub id: nat,
    pub base_start: nat,
    pub base_len: nat,
    pub order_key: Seq<char>,
    pub inserted_blob: Seq<char>,
    pub inserted_len: nat,
}

impl View for StoredOp {
    type V = StoredOpView;

    open spec fn view(&self) -> StoredOpView {
        StoredOpView {
            id: self.id as nat,
            base_start: self.base_start as nat,
            base_len: self.base_len as nat,
            order_key: self.order_key@,
            inserted_blob: self.inserted_blob@,
            inserted_len: self.inserted_len as nat,
        }
    }
}

/// What a lane stores for one path.
#[derive(Debug, PartialEq, Eq)]
pub enum StoredLaneEntry {
    Present(Vec<StoredOp>),
    Deleted,
}

/// A [`StoredLaneEntry`] as a mathematical value.
pub enum StoredEntryView {
    Present(Seq<StoredOpView>),
    Deleted,
}

impl View for StoredLaneEntry {
    type V = StoredEntryView;

    open spec fn view(&self) -> StoredEntryView {
        match self {
            StoredLaneEntry::Present(ops) => StoredEntryView::Present(sorting::views(ops@)),
            StoredLaneEntry::Deleted => StoredEntryView::Deleted,
        }
    }
}

/// What lanes store for one path.
#[derive(Debug, PartialEq, Eq)]
pub struct StoredFile {
    pub base: BaseStorageSnapshot,
    pub lanes: TextMap<StoredLaneEntry>,
}

/// A [`StoredFile`] as a mathematical value.
#[verifier::ext_equal]
pub struct StoredFileView {
    pub base: Option<Seq<u8>>,
    pub lanes: Map<Seq<char>, StoredEntryView>,
}

impl View for StoredFile {
    type V = StoredFileView;

    open spec fn view(&self) -> StoredFileView {
        StoredFileView {
            base: self.base@,
            lanes: self.lanes@.map_values(|entry: StoredLaneEntry| entry@),
        }
    }
}

/// A stored repo.
#[derive(Debug, PartialEq, Eq)]
pub struct StoredRepo {
    pub version: u32,
    pub lanes: TextMap<()>,
    pub files: TextMap<StoredFile>,
}

/// A [`StoredRepo`] as a mathematical value.
#[verifier::ext_equal]
pub struct StoredRepoView {
    pub version: nat,
    pub lanes: Set<Seq<char>>,
    pub files: Map<Seq<char>, StoredFileView>,
}

/// Stored files as mathematical values.
pub open spec fn file_map(files: Map<Seq<char>, StoredFile>) -> Map<Seq<char>, StoredFileView> {
    files.map_values(|file: StoredFile| file@)
}

impl View for StoredRepo {
    type V = StoredRepoView;

    open spec fn view(&self) -> StoredRepoView {
        StoredRepoView {
            version: self.version as nat,
            lanes: self.lanes@.dom(),
            files: file_map(self.files@),
        }
    }
}

/// The maps of stored files have their keys in order.
pub open spec fn files_wf(files: TextMap<StoredFile>) -> bool {
    &&& files.wf()
    &&& forall|p: Seq<char>| #[trigger] files@.contains_key(p) ==> files@[p].lanes.wf()
}

impl StoredRepo {
    /// The maps have their keys in order.
    pub open spec fn wf(&self) -> bool {
        self.lanes.wf() && files_wf(self.files)
    }
}

// From tables to a stored repo.

/// The lanes of the table, or what is told of the first that is no name for a lane.
pub open spec fn lanes_of_rows(rows: Seq<Seq<char>>) -> Result<Set<Seq<char>>, Seq<char>>
    decreases rows.len(),
{
    if rows.len() == 0 {
        Ok(Set::empty())
    } else {
        match lanes_of_rows(rows.drop_last()) {
            Err(message) => Err(message),
            Ok(lanes) => match types::parsed_lane(rows.last()) {
                Err(error) => Err(types::lane_error_message(error)),
                Ok(lane) => Ok(lanes.insert(lane)),
            },
        }
    }
}

/// The files with one more row.
pub open spec fn with_file_row(files: Map<Seq<char>, StoredFileView>, row: FileRowView) -> Result<
    Map<Seq<char>, StoredFileView>,
    Seq<char>,
> {
    match types::parsed_path(row.path) {
        Err(error) => Err(types::lane_error_message(error)),
        Ok(path) => match values::parsed_base(row.base_state, row.base_fingerprint) {
            Err(message) => Err(message),
            Ok(base) => if files.contains_key(path) {
                Err(
                    "database contains duplicate file path after normalization: "@
                        + types::debug_text(path),
                )
            } else {
                Ok(files.insert(path, StoredFileView { base, lanes: Map::empty() }))
            },
        },
    }
}

/// The files of the table, or what is told of the first bad row.
pub open spec fn files_of_rows(rows: Seq<FileRowView>) -> Result<
    Map<Seq<char>, StoredFileView>,
    Seq<char>,
>
    decreases rows.len(),
{
    if rows.len() == 0 {
        Ok(Map::empty())
    } else {
        match files_of_rows(rows.drop_last()) {
            Err(message) => Err(message),
            Ok(files) => with_file_row(files, rows.last()),
        }
    }
}

/// The entry that a state stands for.
pub open spec fn entry_state(row: EntryRowView) -> Result<StoredEntryView, Seq<char>> {
    if row.state == "present"@ {
        Ok(StoredEntryView::Present(Seq::empty()))
    } else if row.state == "deleted"@ {
        Ok(StoredEntryView::Deleted)
    } else {
        Err(
            text::flat(
                seq![
                    "database entry "@,
                    row.path,
                    ":"@,
                    row.lane,
                    " has invalid state "@,
                    types::debug_text(row.state),
                ],
            ),
        )
    }
}

/// The files with one more lane entry.
pub open spec fn with_entry_row(files: Map<Seq<char>, StoredFileView>, row: EntryRowView) -> Result<
    Map<Seq<char>, StoredFileView>,
    Seq<char>,
> {
    match types::parsed_path(row.path) {
        Err(error) => Err(types::lane_error_message(error)),
        Ok(path) => match types::parsed_lane(row.lane) {
            Err(error) => Err(types::lane_error_message(error)),
            Ok(lane) => match entry_state(row) {
                Err(message) => Err(message),
                Ok(entry) => if !files.contains_key(path) {
                    Err(
                        text::flat(
                            seq![
                                "database entry "@,
                                row.path,
                                ":"@,
                                row.lane,
                                " references missing file"@,
                            ],
                        ),
                    )
                } else if files[path].lanes.contains_key(lane) {
                    Err(
                        text::flat(
                            seq![
                                "database file "@,
                                path,
                                " contains duplicate lane entry after normalization: "@,
                                lane,
                            ],
                        ),
                    )
                } else {
                    Ok(
                        files.insert(
                            path,
                            StoredFileView {
                                lanes: files[path].lanes.insert(lane, entry),
                                ..files[path]
                            },
                        ),
                    )
                },
            },
        },
    }
}

/// The files with lane entries, or what is told of the first bad row.
pub open spec fn entries_of_rows(
    files: Map<Seq<char>, StoredFileView>,
    rows: Seq<EntryRowView>,
) -> Result<Map<Seq<char>, StoredFileView>, Seq<char>>
    decreases rows.len(),
{
    if rows.len() == 0 {
        Ok(files)
    } else {
        match entries_of_rows(files, rows.drop_last()) {
            Err(message) => Err(message),
            Ok(files) => with_entry_row(files, rows.last()),
        }
    }
}

/// The operation that a row stands for.
pub open spec fn op_of_row(row: OpRowView) -> Result<StoredOpView, Seq<char>> {
    match values::stored_number(row.id, "id"@) {
        Err(message) => Err(message),
        Ok(id) => match values::stored_number(row.base_start, "base_start"@) {
            Err(message) => Err(message),
            Ok(base_start) => match values::stored_number(row.base_len, "base_len"@) {
                Err(message) => Err(message),
                Ok(base_len) => match values::stored_number(row.inserted_len, "inserted_len"@) {
                    Err(message) => Err(message),
                    Ok(inserted_len) => Ok(
                        StoredOpView {
                            id,
                            base_start,
                            base_len,
                            order_key: row.order_key,
                            inserted_blob: row.inserted_blob,
                            inserted_len,
                        },
                    ),
                },
            },
        },
    }
}

/// What is told of an operation without the file or the entry it belongs to.
pub open spec fn stray_op_message(row: OpRowView, id: nat, missing: Seq<char>) -> Seq<char> {
    text::flat(
        seq![
            "database op "@,
            row.path,
            ":"@,
            row.lane,
            ":"@,
            numbers::decimal_text(id),
            missing,
        ],
    )
}

/// The files with one more operation.
pub open spec fn with_op_row(files: Map<Seq<char>, StoredFileView>, row: OpRowView) -> Result<
    Map<Seq<char>, StoredFileView>,
    Seq<char>,
> {
    match types::parsed_path(row.path) {
        Err(error) => Err(types::lane_error_message(error)),
        Ok(path) => match types::parsed_lane(row.lane) {
            Err(error) => Err(types::lane_error_message(error)),
            Ok(lane) => match op_of_row(row) {
                Err(message) => Err(message),
                Ok(op) => if !files.contains_key(path) {
                    Err(stray_op_message(row, op.id, " references missing file"@))
                } else if !files[path].lanes.contains_key(lane) {
                    Err(stray_op_message(row, op.id, " references missing entry"@))
                } else {
                    match files[path].lanes[lane] {
                        StoredEntryView::Deleted => Err(
                            text::flat(
                                seq![
                                    "deleted database entry "@,
                                    row.path,
                                    ":"@,
                                    row.lane,
                                    " has stored ops"@,
                                ],
                            ),
                        ),
                        StoredEntryView::Present(ops) => Ok(
                            files.insert(
                                path,
                                StoredFileView {
                                    lanes: files[path].lanes.insert(
                                        lane,
                                        StoredEntryView::Present(ops.push(op)),
                                    ),
                                    ..files[path]
                                },
                            ),
                        ),
                    }
                },
            },
        },
    }
}

/// The files with operations, or what is told of the first bad row.
pub open spec fn ops_of_rows(files: Map<Seq<char>, StoredFileView>, rows: Seq<OpRowView>) -> Result<
    Map<Seq<char>, StoredFileView>,
    Seq<char>,
>
    decreases rows.len(),
{
    if rows.len() == 0 {
        Ok(files)
    } else {
        match ops_of_rows(files, rows.drop_last()) {
            Err(message) => Err(message),
            Ok(files) => with_op_row(files, rows.last()),
        }
    }
}

/// The files of the tables, or what is told of the first bad row.
pub open spec fn all_files_of_rows(
    files: Seq<FileRowView>,
    entries: Seq<EntryRowView>,
    ops: Seq<OpRowView>,
) -> Result<Map<Seq<char>, StoredFileView>, Seq<char>> {
    match files_of_rows(files) {
        Err(message) => Err(message),
        Ok(files) => match entries_of_rows(files, entries) {
            Err(message) => Err(message),
            Ok(files) => ops_of_rows(files, ops),
        },
    }
}

/// The repo that tables stand for, or what is told of the first bad row.
pub open spec fn repo_of_rows(rows: StoreRowsView) -> Result<StoredRepoView, Seq<char>> {
    match values::stored_version(rows.version) {
        Err(message) => Err(message),
        Ok(version) => match lanes_of_rows(rows.lanes) {
            Err(message) => Err(message),
            Ok(lanes) => match all_files_of_rows(rows.files, rows.entries, rows.ops) {
                Err(message) => Err(message),
                Ok(files) => Ok(StoredRepoView { version, lanes, files }),
            },
        },
    }
}

/// The view of a result with the files that it leaves.
pub open spec fn files_result(
    r: Result<(), String>,
    files: Map<Seq<char>, StoredFileView>,
) -> Result<Map<Seq<char>, StoredFileView>, Seq<char>> {
    match r {
        Ok(()) => Ok(files),
        Err(message) => Err(message@),
    }
}

proof fn lemma_lanes_error(rows: Seq<Seq<char>>, i: int)
    requires
        0 <= i < rows.len(),
        lanes_of_rows(rows.subrange(0, i + 1)) is Err,
    ensures
        lanes_of_rows(rows) == lanes_of_rows(rows.subrange(0, i + 1)),
    decreases rows.len(),
{
    if i + 1 == rows.len() {
        assert(rows.subrange(0, i + 1) =~= rows);
    } else {
        let rest = rows.drop_last();
        assert(rest.subrange(0, i + 1) =~= rows.subrange(0, i + 1));
        lemma_lanes_error(rest, i);
    }
}

proof fn lemma_files_error(rows: Seq<FileRowView>, i: int)
    requires
        0 <= i < rows.len(),
        files_of_rows(rows.subrange(0, i + 1)) is Err,
    ensures
        files_of_rows(rows) == files_of_rows(rows.subrange(0, i + 1)),
    decreases rows.len(),
{
    if i + 1 == rows.len() {
        assert(rows.subrange(0, i + 1) =~= rows);
    } else {
        let rest = rows.drop_last();
        assert(rest.subrange(0, i + 1) =~= rows.subrange(0, i + 1));
        lemma_files_error(rest, i);
    }
}

proof fn lemma_entries_error(files: Map<Seq<char>, StoredFileView>, rows: Seq<EntryRowView>, i: int)
    requires
        0 <= i < rows.len(),
        entries_of_rows(files, rows.subrange(0, i + 1)) is Err,
    ensures
        entries_of_rows(files, rows) == entries_of_rows(files, rows.subrange(0, i + 1)),
    decreases rows.len(),
{
    if i + 1 == rows.len() {
        assert(rows.subrange(0, i + 1) =~= rows);
    } else {
        let rest = rows.drop_last();
        assert(rest.subrange(0, i + 1) =~= rows.subrange(0, i + 1));
        lemma_entries_error(files, rest, i);
    }
}

proof fn lemma_ops_error(files: Map<Seq<char>, StoredFileView>, rows: Seq<OpRowView>, i: int)
    requires
        0 <= i < rows.len(),
        ops_of_rows(files, rows.subrange(0, i + 1)) is Err,
    ensures
        ops_of_rows(files, rows) == ops_of_rows(files, rows.subrange(0, i + 1)),
    decreases rows.len(),
{
    if i + 1 == rows.len() {
        assert(rows.subrange(0, i + 1) =~= rows);
    } else {
        let rest = rows.drop_last();
        assert(rest.subrange(0, i + 1) =~= rows.subrange(0, i + 1));
        lemma_ops_error(files, rest, i);
    }
}

fn read_lanes(rows: &Vec<String>) -> (r: Result<TextMap<()>, String>)
    ensures
        match r {
            Ok(lanes) => lanes.wf() && lanes_of_rows(text::texts(rows@)) == Ok::<
                Set<Seq<char>>,
                Seq<char>,
            >(lanes@.dom()),
            Err(message) => lanes_of_rows(text::texts(rows@)) == Err::<Set<Seq<char>>, Seq<char>>(
                message@,
            ),
        },
{
    let ghost all = text::texts(rows@);
    let mut lanes: TextMap<()> = TextMap::new();
    let mut i: usize = 0;
    assert(lanes@.dom() =~= Set::empty());
    while i < rows.len()
        invariant
            i <= rows@.len(),
            all == text::texts(rows@),
            lanes.wf(),
            lanes_of_rows(all.subrange(0, i as int)) == Ok::<Set<Seq<char>>, Seq<char>>(
                lanes@.dom(),
            ),
        decreases rows@.len() - i,
    {
        let ghost before = lanes@.dom();
        proof {
            assert(all.subrange(0, i + 1).drop_last() =~= all.subrange(0, i as int));
            assert(all.subrange(0, i + 1).last() == rows@[i as int]@);
        }
        match LaneId::parse(rows[i].as_str()) {
            Err(error) => {
                proof {
                    lemma_lanes_error(all, i as int);
                }
                return Err(error.message());
            },
            Ok(lane) => {
                let ghost named = lane@;
                let _ = lanes.insert(lane.into_string(), ());
                assert(lanes@.dom() =~= before.insert(named));
            },
        }
        i = i + 1;
    }
    assert(all.subrange(0, i as int) =~= all);
    Ok(lanes)
}

fn read_file_row(files: &mut TextMap<StoredFile>, row: &FileRow) -> (r: Result<(), String>)
    requires
        files_wf(*old(files)),
    ensures
        files_wf(*final(files)),
        files_result(r, file_map(final(files)@)) == with_file_row(file_map(old(files)@), row@),
{
    let path = match FilePath::parse(row.path.as_str()) {
        Err(error) => {
            return Err(error.message());
        },
        Ok(path) => path.into_string(),
    };
    let base = match parse_base(row.base_state.as_str(), &row.base_fingerprint) {
        Err(message) => {
            return Err(message);
        },
        Ok(base) => base,
    };
    if files.contains_key(path.as_str()) {
        return Err(
            "database contains duplicate file path after normalization: ".to_owned().concat(
                debug_quoted(path.as_str()).as_str(),
            ),
        );
    }
    let file = StoredFile { base, lanes: TextMap::new() };
    let ghost shown = file@;
    let ghost named = path@;
    let ghost before = files@;
    assert(shown.lanes =~= Map::empty());
    let _ = files.insert(path, file);
    proof {
        assert(file_map(files@) =~= file_map(before).insert(named, shown));
    }
    Ok(())
}

/// Reads the tables of files, lane entries and operations.
pub fn read_files(files: &Vec<FileRow>, entries: &Vec<EntryRow>, ops: &Vec<OpRow>) -> (r: Result<
    TextMap<StoredFile>,
    String,
>)
    ensures
        match r {
            Ok(stored) => files_wf(stored) && all_files_of_rows(
                sorting::views(files@),
                sorting::views(entries@),
                sorting::views(ops@),
            ) == Ok::<Map<Seq<char>, StoredFileView>, Seq<char>>(file_map(stored@)),
            Err(message) => all_files_of_rows(
                sorting::views(files@),
                sorting::views(entries@),
                sorting::views(ops@),
            ) == Err::<Map<Seq<char>, StoredFileView>, Seq<char>>(message@),
        },
{
    let ghost all = sorting::views(files@);
    let mut stored: TextMap<StoredFile> = TextMap::new();
    let mut i: usize = 0;
    assert(file_map(stored@) =~= Map::empty());
    while i < files.len()
        invariant
            i <= files@.len(),
            all == sorting::views(files@),
            files_wf(stored),
            files_of_rows(all.subrange(0, i as int)) == Ok::<
                Map<Seq<char>, StoredFileView>,
                Seq<char>,
            >(file_map(stored@)),
        decreases files@.len() - i,
    {
        proof {
            assert(all.subrange(0, i + 1).drop_last() =~= all.subrange(0, i as int));
            assert(all.subrange(0, i + 1).last() == files@[i as int]@);
        }
        match read_file_row(&mut stored, &files[i]) {
            Err(message) => {
                proof {
                    lemma_files_error(all, i as int);
                }
                return Err(message);
            },
            Ok(()) => {},
        }
        i = i + 1;
    }
    assert(all.subrange(0, i as int) =~= all);
    match read_lane_entries(entries, &mut stored) {
        Err(message) => {
            return Err(message);
        },
        Ok(()) => {},
    }
    match read_ops(ops, &mut stored) {
        Err(message) => Err(message),
        Ok(()) => Ok(stored),
    }
}

fn read_state(row: &EntryRow) -> (r: Result<StoredLaneEntry, String>)
    ensures
        match r {
            Ok(entry) => entry_state(row@) == Ok::<StoredEntryView, Seq<char>>(entry@),
            Err(message) => entry_state(row@) == Err::<StoredEntryView, Seq<char>>(message@),
        },
{
    if text_eq(row.state.as_str(), "present") {
        let entry = StoredLaneEntry::Present(Vec::new());
        assert(entry@->Present_0 =~= Seq::empty());
        Ok(entry)
    } else if text_eq(row.state.as_str(), "deleted") {
        Ok(StoredLaneEntry::Deleted)
    } else {
        let quoted = debug_quoted(row.state.as_str());
        let parts: Vec<&str> = vec![
            "database entry ",
            row.path.as_str(),
            ":",
            row.lane.as_str(),
            " has invalid state ",
            quoted.as_str(),
        ];
        assert(text::strs(parts@) =~= seq![
            "database entry "@,
            row@.path,
            ":"@,
            row@.lane,
            " has invalid state "@,
            types::debug_text(row@.state),
        ]);
        Err(cat(parts))
    }
}

/// Puts a changed file in the place of the one at its path.
fn put_file(
    files: &mut TextMap<StoredFile>,
    path: String,
    file: StoredFile,
    before: Ghost<Map<Seq<char>, StoredFile>>,
)
    requires
        files_wf(*old(files)),
        file.lanes.wf(),
        before@.contains_key(path@),
        old(files)@ == before@.remove(path@),
    ensures
        files_wf(*final(files)),
        file_map(final(files)@) == file_map(before@).insert(path@, file@),
{
    let ghost shown = file@;
    let ghost named = path@;
    let _ = files.insert(path, file);
    assert(file_map(files@) =~= file_map(before@).insert(named, shown));
}

fn read_entry_row(files: &mut TextMap<StoredFile>, row: &EntryRow) -> (r: Result<(), String>)
    requires
        files_wf(*old(files)),
    ensures
        files_wf(*final(files)),
        files_result(r, file_map(final(files)@)) == with_entry_row(file_map(old(files)@), row@),
{
    let path = match FilePath::parse(row.path.as_str()) {
        Err(error) => {
            return Err(error.message());
        },
        Ok(path) => path.into_string(),
    };
    let lane = match LaneId::parse(row.lane.as_str()) {
        Err(error) => {
            return Err(error.message());
        },
        Ok(lane) => lane.into_string(),
    };
    let entry = match read_state(row) {
        Err(message) => {
            return Err(message);
        },
        Ok(entry) => entry,
    };
    let ghost before = files@;
    match files.remove(path.as_str()) {
        None => {
            let parts: Vec<&str> = vec![
                "database entry ",
                row.path.as_str(),
                ":",
                row.lane.as_str(),
                " references missing file",
            ];
            assert(text::strs(parts@) =~= seq![
                "database entry "@,
                row@.path,
                ":"@,
                row@.lane,
                " references missing file"@,
            ]);
            Err(cat(parts))
        },
        Some(file) => {
            if file.lanes.contains_key(lane.as_str()) {
                let parts: Vec<&str> = vec![
                    "database file ",
                    path.as_str(),
                    " contains duplicate lane entry after normalization: ",
                    lane.as_str(),
                ];
                assert(text::strs(parts@) =~= seq![
                    "database file "@,
                    path@,
                    " contains duplicate lane entry after normalization: "@,
                    lane@,
                ]);
                return Err(cat(parts));
            }
            let StoredFile { base, mut lanes } = file;
            let ghost old_lanes = lanes@;
            let ghost shown = entry@;
            let ghost named = lane@;
            let _ = lanes.insert(lane, entry);
            let changed = StoredFile { base, lanes };
            proof {
                assert(changed@.lanes =~= file@.lanes.insert(named, shown));
                assert(file_map(before)[path@] == file@);
            }
            put_file(files, path, changed, Ghost(before));
            Ok(())
        },
    }
}

fn read_lane_entries(rows: &Vec<EntryRow>, files: &mut TextMap<StoredFile>) -> (r: Result<
    (),
    String,
>)
    requires
        files_wf(*old(files)),
    ensures
        files_wf(*final(files)),
        files_result(r, file_map(final(files)@)) == entries_of_rows(
            file_map(old(files)@),
            sorting::views(rows@),
        ),
{
    let ghost all = sorting::views(rows@);
    let ghost start = file_map(files@);
    let mut i: usize = 0;
    assert(all.subrange(0, 0) =~= Seq::empty());
    while i < rows.len()
        invariant
            i <= rows@.len(),
            all == sorting::views(rows@),
            start == file_map(old(files)@),
            files_wf(*files),
            entries_of_rows(start, all.subrange(0, i as int)) == Ok::<
                Map<Seq<char>, StoredFileView>,
                Seq<char>,
            >(file_map(files@)),
        decreases rows@.len() - i,
    {
        proof {
            assert(all.subrange(0, i + 1).drop_last() =~= all.subrange(0, i as int));
            assert(all.subrange(0, i + 1).last() == rows@[i as int]@);
        }
        match read_entry_row(files, &rows[i]) {
            Err(message) => {
                proof {
                    lemma_entries_error(start, all, i as int);
                }
                return Err(message);
            },
            Ok(()) => {},
        }
        i = i + 1;
    }
    assert(all.subrange(0, i as int) =~= all);
    Ok(())
}

fn read_op(row: &OpRow) -> (r: Result<StoredOp, String>)
    ensures
        match r {
            Ok(op) => op_of_row(row@) == Ok::<StoredOpView, Seq<char>>(op@),
            Err(message) => op_of_row(row@) == Err::<StoredOpView, Seq<char>>(message@),
        },
{
    let id: u64 = match parse_u64(row.id.as_str(), "id") {
        Err(message) => {
            return Err(message);
        },
        Ok(n) => n,
    };
    let base_start: u64 = match parse_u64(row.base_start.as_str(), "base_start") {
        Err(message) => {
            return Err(message);
        },
        Ok(n) => n,
    };
    let base_len: u64 = match parse_u64(row.base_len.as_str(), "base_len") {
        Err(message) => {
            return Err(message);
        },
        Ok(n) => n,
    };
    let inserted_len: u64 = match parse_u64(row.inserted_len.as_str(), "inserted_len") {
        Err(message) => {
            return Err(message);
        },
        Ok(n) => n,
    };
    Ok(
        StoredOp {
            id,
            base_start,
            base_len,
            order_key: row.order_key.clone(),
            inserted_blob: row.inserted_blob.clone(),
            inserted_len,
        },
    )
}

fn stray_op(row: &OpRow, id: u64, missing: &str) -> (r: String)
    ensures
        r@ == stray_op_message(row@, id as nat, missing@),
{
    let number = decimal(id);
    let parts: Vec<&str> = vec![
        "database op ",
        row.path.as_str(),
        ":",
        row.lane.as_str(),
        ":",
        number.as_str(),
        missing,
    ];
    assert(text::strs(parts@) =~= seq![
        "database op "@,
        row@.path,
        ":"@,
        row@.lane,
        ":"@,
        numbers::decimal_text(id as nat),
        missing@,
    ]);
    cat(parts)
}

fn read_op_row(files: &mut TextMap<StoredFile>, row: &OpRow) -> (r: Result<(), String>)
    requires
        files_wf(*old(files)),
    ensures
        files_wf(*final(files)),
        files_result(r, file_map(final(files)@)) == with_op_row(file_map(old(files)@), row@),
{
    let path = match FilePath::parse(row.path.as_str()) {
        Err(error) => {
            return Err(error.message());
        },
        Ok(path) => path.into_string(),
    };
    let lane = match LaneId::parse(row.lane.as_str()) {
        Err(error) => {
            return Err(error.message());
        },
        Ok(lane) => lane.into_string(),
    };
    let op = match read_op(row) {
        Err(message) => {
            return Err(message);
        },
        Ok(op) => op,
    };
    let ghost before = files@;
    let file = match files.remove(path.as_str()) {
        None => {
            return Err(stray_op(row, op.id, " references missing file"));
        },
        Some(file) => file,
    };
    let ghost old_file = file@;
    assert(file_map(before)[path@] == old_file);
    let StoredFile { base, mut lanes } = file;
    match lanes.remove(lane.as_str()) {
        None => Err(stray_op(row, op.id, " references missing entry")),
        Some(entry) => match entry {
            StoredLaneEntry::Deleted => {
                let parts: Vec<&str> = vec![
                    "deleted database entry ",
                    row.path.as_str(),
                    ":",
                    row.lane.as_str(),
                    " has stored ops",
                ];
                assert(text::strs(parts@) =~= seq![
                    "deleted database entry "@,
                    row@.path,
                    ":"@,
                    row@.lane,
                    " has stored ops"@,
                ]);
                Err(cat(parts))
            },
            StoredLaneEntry::Present(ops) => {
                let mut ops = ops;
                let ghost old_ops = sorting::views(ops@);
                let ghost shown = op@;
                let ghost named = lane@;
                ops.push(op);
                assert(sorting::views(ops@) =~= old_ops.push(shown));
                let _ = lanes.insert(lane, StoredLaneEntry::Present(ops));
                let changed = StoredFile { base, lanes };
                proof {
                    assert(changed@.lanes =~= old_file.lanes.insert(
                        named,
                        StoredEntryView::Present(old_ops.push(shown)),
                    ));
                }
                put_file(files, path, changed, Ghost(before));
                Ok(())
            },
        },
    }
}

fn read_ops(rows: &Vec<OpRow>, files: &mut TextMap<StoredFile>) -> (r: Result<(), String>)
    requires
        files_wf(*old(files)),
    ensures
        files_wf(*final(files)),
        files_result(r, file_map(final(files)@)) == ops_of_rows(
            file_map(old(files)@),
            sorting::views(rows@),
        ),
{
    let ghost all = sorting::views(rows@);
    let ghost start = file_map(files@);
    let mut i: usize = 0;
    assert(all.subrange(0, 0) =~= Seq::empty());
    while i < rows.len()
        invariant
            i <= rows@.len(),
            all == sorting::views(rows@),
            start == file_map(old(files)@),
            files_wf(*files),
            ops_of_rows(start, all.subrange(0, i as int)) == Ok::<
                Map<Seq<char>, StoredFileView>,
                Seq<char>,
            >(file_map(files@)),
        decreases rows@.len() - i,
    {
        proof {
            assert(all.subrange(0, i + 1).drop_last() =~= all.subrange(0, i as int));
            assert(all.subrange(0, i + 1).last() == rows@[i as int]@);
        }
        match read_op_row(files, &rows[i]) {
            Err(message) => {
                proof {
                    lemma_ops_error(start, all, i as int);
                }
                return Err(message);
            },
            Ok(()) => {},
        }
        i = i + 1;
    }
    assert(all.subrange(0, i as int) =~= all);
    Ok(())
}

/// Reads a stored repo from its tables.
pub fn read_stored_repo(rows: &StoreRows) -> (r: Result<StoredRepo, String>)
    ensures
        match r {
            Ok(stored) => stored.wf() && repo_of_rows(rows@) == Ok::<StoredRepoView, Seq<char>>(
                stored@,
            ),
            Err(message) => repo_of_rows(rows@) == Err::<StoredRepoView, Seq<char>>(message@),
        },
{
    let version: u32 = match parse_version(rows.version.as_str()) {
        Err(message) => {
            return Err(message);
        },
        Ok(version) => version,
    };
    let lanes = match read_lanes(&rows.lanes) {
        Err(message) => {
            return Err(message);
        },
        Ok(lanes) => lanes,
    };
    match read_files(&rows.files, &rows.entries, &rows.ops) {
        Err(message) => Err(message),
        Ok(files) => Ok(StoredRepo { version, lanes, files }),
    }
}

} // verus!
