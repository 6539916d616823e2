//! A repo written as rows of tables and named byte strings, and read back from them.
use vstd::prelude::*;

use crate::lane_file::{Entry, File};
use crate::numbers;
use crate::numbers::decimal;
use crate::ops;
use crate::ops::Op;
use crate::repo;
use crate::repo::Repo;
use crate::sorting;
use crate::storage::rows;
use crate::storage::rows::{
    EntryRow, EntryRowView, FileRow, FileRowView, OpRow, OpRowView, StoreRows, StoreRowsView,
    StoredEntryView, StoredFile, StoredFileView, StoredLaneEntry, StoredOpView, StoredRepo,
    StoredRepoView,
};
use crate::storage::values;
use crate::storage::values::{blob_reference, stored_base, STORE_VERSION};
use crate::text;
use crate::text_map;
use crate::text_map::TextMap;
use crate::types;
use crate::types::{
    BaseStorageSnapshot, FileOpStorageSnapshot, LaneEntryStorageSnapshot, LaneFileStorageSnapshot,
    LaneRepoStorageSnapshot, LaneRunState,
};

verus! {

/// The row of a file.
pub open spec fn file_row(path: Seq<char>, file: File) -> FileRowView {
    FileRowView {
        path,
        base_state: values::base_texts(file.base).0,
        base_fingerprint: values::base_texts(file.base).1,
    }
}

/// The row of a lane's entry.
pub open spec fn entry_row(path: Seq<char>, lane: Seq<char>, entry: Entry) -> EntryRowView {
    EntryRowView {
        path,
        lane,
        state: match entry {
            Entry::Present(_) => "present"@,
            Entry::Deleted => "deleted"@,
        },
    }
}

/// The row of an operation.
pub open spec fn op_row(path: Seq<char>, lane: Seq<char>, ordinal: nat, op: Op) -> OpRowView {
    OpRowView {
        path,
        lane,
        ordinal,
        id: numbers::decimal_text(op.id as nat),
        base_start: numbers::decimal_text(op.start as nat),
        base_len: numbers::decimal_text(op.len as nat),
        order_key: op.key,
        inserted_blob: values::blob_name(op.inserted),
        inserted_len: numbers::decimal_text(op.inserted.len()),
    }
}

/// The rows of a list of operations.
pub open spec fn op_rows(path: Seq<char>, lane: Seq<char>, list: Seq<Op>) -> Seq<OpRowView>
    decreases list.len(),
{
    if list.len() == 0 {
        Seq::empty()
    } else {
        op_rows(path, lane, list.drop_last()).push(
            op_row(path, lane, (list.len() - 1) as nat, list.last()),
        )
    }
}

/// The rows of an entry's operations.
pub open spec fn entry_op_rows(path: Seq<char>, lane: Seq<char>, entry: Entry) -> Seq<OpRowView> {
    match entry {
        Entry::Present(list) => op_rows(path, lane, list),
        Entry::Deleted => Seq::empty(),
    }
}

/// The rows of the entries of some lanes at a path.
pub open spec fn file_entry_rows(path: Seq<char>, file: File, lanes: Seq<Seq<char>>) -> Seq<
    EntryRowView,
>
    decreases lanes.len(),
{
    if lanes.len() == 0 {
        Seq::empty()
    } else {
        file_entry_rows(path, file, lanes.drop_last()).push(
            entry_row(path, lanes.last(), file.lanes[lanes.last()]),
        )
    }
}

/// The rows of the operations of some lanes at a path.
pub open spec fn file_op_rows(path: Seq<char>, file: File, lanes: Seq<Seq<char>>) -> Seq<OpRowView>
    decreases lanes.len(),
{
    if lanes.len() == 0 {
        Seq::empty()
    } else {
        file_op_rows(path, file, lanes.drop_last()) + entry_op_rows(
            path,
            lanes.last(),
            file.lanes[lanes.last()],
        )
    }
}

/// The lanes of a file, in order.
pub open spec fn lane_order(file: File) -> Seq<Seq<char>> {
    text_map::listing(file.lanes.dom())
}

/// The rows of files.
pub open spec fn repo_file_rows(files: Map<Seq<char>, File>, paths: Seq<Seq<char>>) -> Seq<
    FileRowView,
>
    decreases paths.len(),
{
    if paths.len() == 0 {
        Seq::empty()
    } else {
        repo_file_rows(files, paths.drop_last()).push(file_row(paths.last(), files[paths.last()]))
    }
}

/// The rows of entries, path by path.
pub open spec fn repo_entry_rows(files: Map<Seq<char>, File>, paths: Seq<Seq<char>>) -> Seq<
    EntryRowView,
>
    decreases paths.len(),
{
    if paths.len() == 0 {
        Seq::empty()
    } else {
        repo_entry_rows(files, paths.drop_last()) + file_entry_rows(
            paths.last(),
            files[paths.last()],
            lane_order(files[paths.last()]),
        )
    }
}

/// The rows of operations, path by path.
pub open spec fn repo_op_rows(files: Map<Seq<char>, File>, paths: Seq<Seq<char>>) -> Seq<OpRowView>
    decreases paths.len(),
{
    if paths.len() == 0 {
        Seq::empty()
    } else {
        repo_op_rows(files, paths.drop_last()) + file_op_rows(
            paths.last(),
            files[paths.last()],
            lane_order(files[paths.last()]),
        )
    }
}

/// The tables of a repo.
pub open spec fn repo_rows(repo: Repo) -> StoreRowsView {
    let paths = text_map::listing(repo.files.dom());
    StoreRowsView {
        version: numbers::decimal_text(STORE_VERSION as nat),
        lanes: text_map::listing(repo.lanes),
        files: repo_file_rows(repo.files, paths),
        entries: repo_entry_rows(repo.files, paths),
        ops: repo_op_rows(repo.files, paths),
    }
}

fn push_op_rows(
    out: &mut Vec<OpRow>,
    path: &str,
    lane: &str,
    list: &Vec<FileOpStorageSnapshot>,
)
    ensures
        sorting::views(final(out)@) == sorting::views(old(out)@) + op_rows(
            path@,
            lane@,
            ops::stored_ops_view(list@),
        ),
{
    let ghost start = sorting::views(out@);
    let ghost all = ops::stored_ops_view(list@);
    let mut i: usize = 0;
    assert(start =~= start + op_rows(path@, lane@, all.subrange(0, 0)));
    while i < list.len()
        invariant
            i <= list@.len(),
            all == ops::stored_ops_view(list@),
            sorting::views(out@) == start + op_rows(path@, lane@, all.subrange(0, i as int)),
        decreases list@.len() - i,
    {
        let op = &list[i];
        let row = OpRow {
            path: path.to_owned(),
            lane: lane.to_owned(),
            ordinal: i,
            id: decimal(op.id),
            base_start: decimal(op.base_start),
            base_len: decimal(op.base_len),
            order_key: op.order_key.clone(),
            inserted_blob: blob_reference(op.inserted.as_slice()),
            inserted_len: decimal(op.inserted.len() as u64),
        };
        let ghost before = sorting::views(out@);
        let ghost shown = row@;
        proof {
            assert(all.subrange(0, i + 1).drop_last() =~= all.subrange(0, i as int));
            assert(all.subrange(0, i + 1).last() == op@);
            assert(shown =~= op_row(path@, lane@, i as nat, op@));
        }
        out.push(row);
        assert(sorting::views(out@) =~= before.push(shown));
        assert(sorting::views(out@) =~= start + op_rows(path@, lane@, all.subrange(0, i + 1)));
        i = i + 1;
    }
    assert(all.subrange(0, i as int) =~= all);
}

fn push_file_rows(
    entries: &mut Vec<EntryRow>,
    ops_out: &mut Vec<OpRow>,
    path: &str,
    file: &LaneFileStorageSnapshot,
)
    requires
        file.lanes.wf(),
    ensures
        sorting::views(final(entries)@) == sorting::views(old(entries)@) + file_entry_rows(
            path@,
            file@,
            lane_order(file@),
        ),
        sorting::views(final(ops_out)@) == sorting::views(old(ops_out)@) + file_op_rows(
            path@,
            file@,
            lane_order(file@),
        ),
{
    let ghost entries0 = sorting::views(entries@);
    let ghost ops0 = sorting::views(ops_out@);
    let ghost keys = file.lanes.keys();
    let mut i: usize = 0;
    proof {
        file.lanes.lemma_wf();
        assert(file@.lanes.dom() =~= file.lanes@.dom());
        assert(entries0 =~= entries0 + file_entry_rows(path@, file@, keys.subrange(0, 0)));
        assert(ops0 =~= ops0 + file_op_rows(path@, file@, keys.subrange(0, 0)));
    }
    while i < file.lanes.len()
        invariant
            i <= file.lanes.pairs().len(),
            file.lanes.wf(),
            keys == file.lanes.keys(),
            sorting::views(entries@) == entries0 + file_entry_rows(
                path@,
                file@,
                keys.subrange(0, i as int),
            ),
            sorting::views(ops_out@) == ops0 + file_op_rows(
                path@,
                file@,
                keys.subrange(0, i as int),
            ),
        decreases file.lanes.pairs().len() - i,
    {
        let lane = file.lanes.key_at(i);
        let entry = file.lanes.value_at(i);
        let ghost entries1 = sorting::views(entries@);
        proof {
            file.lanes.lemma_wf();
            assert(file.lanes@.contains_key(file.lanes.pairs()[i as int].0));
            assert(file@.lanes[lane@] == entry@);
            assert(keys.subrange(0, i + 1).drop_last() =~= keys.subrange(0, i as int));
            assert(keys.subrange(0, i + 1).last() == lane@);
        }
        let state = match entry {
            LaneEntryStorageSnapshot::Present(_) => "present",
            LaneEntryStorageSnapshot::Deleted => "deleted",
        };
        let row = EntryRow {
            path: path.to_owned(),
            lane: lane.to_owned(),
            state: state.to_owned(),
        };
        let ghost shown = row@;
        entries.push(row);
        proof {
            assert(shown =~= entry_row(path@, lane@, entry@));
            assert(sorting::views(entries@) =~= entries1.push(shown));
            assert(sorting::views(entries@) =~= entries0 + file_entry_rows(
                path@,
                file@,
                keys.subrange(0, i + 1),
            ));
        }
        match entry {
            LaneEntryStorageSnapshot::Present(list) => push_op_rows(ops_out, path, lane, list),
            LaneEntryStorageSnapshot::Deleted => {},
        }
        assert(sorting::views(ops_out@) =~= ops0 + file_op_rows(
            path@,
            file@,
            keys.subrange(0, i + 1),
        ));
        i = i + 1;
    }
    assert(keys.subrange(0, i as int) =~= keys);
}

/// The tables of a repo: what is written to the database.
pub fn snapshot_rows(snapshot: &LaneRepoStorageSnapshot) -> (r: StoreRows)
    requires
        repo::snapshot_wf(*snapshot),
    ensures
        r@ == repo_rows(snapshot@),
{
    let mut lanes: Vec<String> = Vec::new();
    let ghost lane_keys = snapshot.lanes.keys();
    let mut i: usize = 0;
    proof {
        snapshot.lanes.lemma_wf();
        snapshot.files.lemma_wf();
    }
    while i < snapshot.lanes.len()
        invariant
            i <= snapshot.lanes.pairs().len(),
            lane_keys == snapshot.lanes.keys(),
            lanes@.len() == i,
            forall|k: int| 0 <= k < i ==> (#[trigger] lanes@[k])@ == lane_keys[k],
        decreases snapshot.lanes.pairs().len() - i,
    {
        lanes.push(snapshot.lanes.key_at(i).to_owned());
        i = i + 1;
    }
    assert(text::texts(lanes@) =~= lane_keys);
    let ghost files_view = snapshot@.files;
    let ghost keys = snapshot.files.keys();
    let mut files: Vec<FileRow> = Vec::new();
    let mut entries: Vec<EntryRow> = Vec::new();
    let mut ops_out: Vec<OpRow> = Vec::new();
    let mut j: usize = 0;
    proof {
        assert(files_view.dom() =~= snapshot.files@.dom());
        assert(keys.subrange(0, 0) =~= Seq::empty());
        assert(sorting::views(files@) =~= Seq::empty());
        assert(sorting::views(entries@) =~= Seq::empty());
        assert(sorting::views(ops_out@) =~= Seq::empty());
    }
    while j < snapshot.files.len()
        invariant
            j <= snapshot.files.pairs().len(),
            repo::snapshot_wf(*snapshot),
            keys == snapshot.files.keys(),
            files_view == snapshot@.files,
            sorting::views(files@) == repo_file_rows(files_view, keys.subrange(0, j as int)),
            sorting::views(entries@) == repo_entry_rows(files_view, keys.subrange(0, j as int)),
            sorting::views(ops_out@) == repo_op_rows(files_view, keys.subrange(0, j as int)),
        decreases snapshot.files.pairs().len() - j,
    {
        let path = snapshot.files.key_at(j);
        let file = snapshot.files.value_at(j);
        let ghost files1 = sorting::views(files@);
        proof {
            snapshot.files.lemma_wf();
            assert(snapshot.files@.contains_key(snapshot.files.pairs()[j as int].0));
            assert(files_view[path@] == file@);
            assert(keys.subrange(0, j + 1).drop_last() =~= keys.subrange(0, j as int));
            assert(keys.subrange(0, j + 1).last() == path@);
        }
        let (base_state, base_fingerprint) = stored_base(&file.base);
        let row = FileRow {
            path: path.to_owned(),
            base_state: base_state.to_owned(),
            base_fingerprint,
        };
        let ghost shown = row@;
        files.push(row);
        proof {
            assert(shown =~= file_row(path@, file@));
            assert(sorting::views(files@) =~= files1.push(shown));
        }
        push_file_rows(&mut entries, &mut ops_out, path, file);
        j = j + 1;
    }
    assert(keys.subrange(0, j as int) =~= keys);
    StoreRows {
        version: decimal(STORE_VERSION as u64),
        lanes,
        files,
        entries,
        ops: ops_out,
    }
}

// Byte strings under their names.

/// The named byte strings with one more; a name that is taken stays as it is.
pub open spec fn with_blob(blobs: Map<Seq<char>, Seq<u8>>, bytes: Seq<u8>) -> Map<
    Seq<char>,
    Seq<u8>,
> {
    if blobs.contains_key(values::blob_name(bytes)) {
        blobs
    } else {
        blobs.insert(values::blob_name(bytes), bytes)
    }
}

/// The named byte strings with those of operations.
pub open spec fn with_op_blobs(blobs: Map<Seq<char>, Seq<u8>>, list: Seq<Op>) -> Map<
    Seq<char>,
    Seq<u8>,
>
    decreases list.len(),
{
    if list.len() == 0 {
        blobs
    } else {
        with_blob(with_op_blobs(blobs, list.drop_last()), list.last().inserted)
    }
}

/// The named byte strings with those of an entry.
pub open spec fn with_entry_blobs(blobs: Map<Seq<char>, Seq<u8>>, entry: Entry) -> Map<
    Seq<char>,
    Seq<u8>,
> {
    match entry {
        Entry::Present(list) => with_op_blobs(blobs, list),
        Entry::Deleted => blobs,
    }
}

/// The named byte strings with those of some lanes at a path.
pub open spec fn with_file_blobs(
    blobs: Map<Seq<char>, Seq<u8>>,
    file: File,
    lanes: Seq<Seq<char>>,
) -> Map<Seq<char>, Seq<u8>>
    decreases lanes.len(),
{
    if lanes.len() == 0 {
        blobs
    } else {
        with_entry_blobs(
            with_file_blobs(blobs, file, lanes.drop_last()),
            file.lanes[lanes.last()],
        )
    }
}

/// The named byte strings of files.
pub open spec fn files_blobs(files: Map<Seq<char>, File>, paths: Seq<Seq<char>>) -> Map<
    Seq<char>,
    Seq<u8>,
>
    decreases paths.len(),
{
    if paths.len() == 0 {
        Map::empty()
    } else {
        with_file_blobs(
            files_blobs(files, paths.drop_last()),
            files[paths.last()],
            lane_order(files[paths.last()]),
        )
    }
}

/// The named byte strings of a repo.
pub open spec fn repo_blobs(repo: Repo) -> Map<Seq<char>, Seq<u8>> {
    files_blobs(repo.files, text_map::listing(repo.files.dom()))
}

/// Named byte strings as mathematical values.
pub open spec fn blob_views(blobs: Map<Seq<char>, Vec<u8>>) -> Map<Seq<char>, Seq<u8>> {
    blobs.map_values(|bytes: Vec<u8>| bytes@)
}

fn add_op_blobs(blobs: &mut TextMap<Vec<u8>>, list: &Vec<FileOpStorageSnapshot>)
    requires
        old(blobs).wf(),
    ensures
        final(blobs).wf(),
        blob_views(final(blobs)@) == with_op_blobs(
            blob_views(old(blobs)@),
            ops::stored_ops_view(list@),
        ),
{
    let ghost start = blob_views(blobs@);
    let ghost all = ops::stored_ops_view(list@);
    let mut i: usize = 0;
    assert(all.subrange(0, 0) =~= Seq::empty());
    while i < list.len()
        invariant
            i <= list@.len(),
            all == ops::stored_ops_view(list@),
            blobs.wf(),
            blob_views(blobs@) == with_op_blobs(start, all.subrange(0, i as int)),
        decreases list@.len() - i,
    {
        let op = &list[i];
        let ghost before = blob_views(blobs@);
        proof {
            assert(all.subrange(0, i + 1).drop_last() =~= all.subrange(0, i as int));
            assert(all.subrange(0, i + 1).last() == op@);
        }
        let name = blob_reference(op.inserted.as_slice());
        if !blobs.contains_key(name.as_str()) {
            let ghost named = name@;
            let _ = blobs.insert(name, vstd::slice::slice_to_vec(op.inserted.as_slice()));
            assert(blob_views(blobs@) =~= before.insert(named, op.inserted@));
        }
        i = i + 1;
    }
    assert(all.subrange(0, i as int) =~= all);
}

fn add_file_blobs(blobs: &mut TextMap<Vec<u8>>, file: &LaneFileStorageSnapshot)
    requires
        old(blobs).wf(),
        file.lanes.wf(),
    ensures
        final(blobs).wf(),
        blob_views(final(blobs)@) == with_file_blobs(
            blob_views(old(blobs)@),
            file@,
            lane_order(file@),
        ),
{
    let ghost start = blob_views(blobs@);
    let ghost keys = file.lanes.keys();
    let mut i: usize = 0;
    proof {
        file.lanes.lemma_wf();
        assert(file@.lanes.dom() =~= file.lanes@.dom());
        assert(keys.subrange(0, 0) =~= Seq::empty());
    }
    while i < file.lanes.len()
        invariant
            i <= file.lanes.pairs().len(),
            file.lanes.wf(),
            blobs.wf(),
            keys == file.lanes.keys(),
            blob_views(blobs@) == with_file_blobs(start, file@, keys.subrange(0, i as int)),
        decreases file.lanes.pairs().len() - i,
    {
        let entry = file.lanes.value_at(i);
        proof {
            file.lanes.lemma_wf();
            let key = file.lanes.pairs()[i as int].0;
            assert(file.lanes@.contains_key(key));
            assert(file@.lanes[key] == entry@);
            assert(keys.subrange(0, i + 1).drop_last() =~= keys.subrange(0, i as int));
            assert(keys.subrange(0, i + 1).last() == key);
        }
        match entry {
            LaneEntryStorageSnapshot::Present(list) => add_op_blobs(blobs, list),
            LaneEntryStorageSnapshot::Deleted => {},
        }
        i = i + 1;
    }
    assert(keys.subrange(0, i as int) =~= keys);
}

/// The byte strings of a repo under their names: what is written beside the database.
pub fn snapshot_blobs(snapshot: &LaneRepoStorageSnapshot) -> (r: TextMap<Vec<u8>>)
    requires
        repo::snapshot_wf(*snapshot),
    ensures
        r.wf(),
        blob_views(r@) == repo_blobs(snapshot@),
{
    let mut blobs: TextMap<Vec<u8>> = TextMap::new();
    let ghost files_view = snapshot@.files;
    let ghost keys = snapshot.files.keys();
    let mut i: usize = 0;
    proof {
        snapshot.files.lemma_wf();
        assert(files_view.dom() =~= snapshot.files@.dom());
        assert(keys.subrange(0, 0) =~= Seq::empty());
        assert(blob_views(blobs@) =~= Map::empty());
    }
    while i < snapshot.files.len()
        invariant
            i <= snapshot.files.pairs().len(),
            repo::snapshot_wf(*snapshot),
            blobs.wf(),
            keys == snapshot.files.keys(),
            files_view == snapshot@.files,
            blob_views(blobs@) == files_blobs(files_view, keys.subrange(0, i as int)),
        decreases snapshot.files.pairs().len() - i,
    {
        let file = snapshot.files.value_at(i);
        proof {
            snapshot.files.lemma_wf();
            let path = snapshot.files.pairs()[i as int].0;
            assert(snapshot.files@.contains_key(path));
            assert(files_view[path] == file@);
            assert(keys.subrange(0, i + 1).drop_last() =~= keys.subrange(0, i as int));
            assert(keys.subrange(0, i + 1).last() == path);
        }
        add_file_blobs(&mut blobs, file);
        i = i + 1;
    }
    assert(keys.subrange(0, i as int) =~= keys);
    blobs
}

// From a stored repo and named byte strings to a repo.

/// The operation that a stored one stands for.
pub open spec fn loaded_op(op: StoredOpView, blobs: Map<Seq<char>, Seq<u8>>) -> Op {
    Op {
        id: op.id as int,
        start: op.base_start as int,
        len: op.base_len as int,
        key: op.order_key,
        inserted: blobs[op.inserted_blob],
    }
}

/// The entry that a stored one stands for.
pub open spec fn loaded_entry(entry: StoredEntryView, blobs: Map<Seq<char>, Seq<u8>>) -> Entry {
    match entry {
        StoredEntryView::Present(list) => Entry::Present(
            list.map_values(|op: StoredOpView| loaded_op(op, blobs)),
        ),
        StoredEntryView::Deleted => Entry::Deleted,
    }
}

/// The file that a stored one stands for.
pub open spec fn loaded_file(file: StoredFileView, blobs: Map<Seq<char>, Seq<u8>>) -> File {
    File {
        base: file.base,
        lanes: file.lanes.map_values(|entry: StoredEntryView| loaded_entry(entry, blobs)),
    }
}

/// The repo that a stored one stands for. How commands ended is stored elsewhere.
pub open spec fn loaded_repo(stored: StoredRepoView, blobs: Map<Seq<char>, Seq<u8>>) -> Repo {
    Repo {
        lanes: stored.lanes,
        runs: Map::empty(),
        files: stored.files.map_values(|file: StoredFileView| loaded_file(file, blobs)),
    }
}

/// Whether the bytes of an entry are at hand.
pub open spec fn entry_complete(entry: StoredEntryView, blobs: Map<Seq<char>, Seq<u8>>) -> bool {
    entry matches StoredEntryView::Present(list) ==> forall|i: int|
        0 <= i < list.len() ==> blobs.contains_key((#[trigger] list[i]).inserted_blob)
}

/// Whether the bytes of a file are at hand.
pub open spec fn file_complete(file: StoredFileView, blobs: Map<Seq<char>, Seq<u8>>) -> bool {
    forall|k: Seq<char>| #[trigger]
        file.lanes.contains_key(k) ==> entry_complete(file.lanes[k], blobs)
}

/// Whether the bytes of a repo are at hand.
pub open spec fn repo_complete(stored: StoredRepoView, blobs: Map<Seq<char>, Seq<u8>>) -> bool {
    forall|p: Seq<char>| #[trigger]
        stored.files.contains_key(p) ==> file_complete(stored.files[p], blobs)
}

fn load_entry(entry: &StoredLaneEntry, blobs: &TextMap<Vec<u8>>) -> (r: Option<
    LaneEntryStorageSnapshot,
>)
    requires
        blobs.wf(),
    ensures
        match r {
            Some(loaded) => entry_complete(entry@, blob_views(blobs@)) && loaded@ == loaded_entry(
                entry@,
                blob_views(blobs@),
            ),
            None => !entry_complete(entry@, blob_views(blobs@)),
        },
{
    let ghost known = blob_views(blobs@);
    match entry {
        StoredLaneEntry::Deleted => Some(LaneEntryStorageSnapshot::Deleted),
        StoredLaneEntry::Present(list) => {
            let ghost all = sorting::views(list@);
            let mut loaded: Vec<FileOpStorageSnapshot> = Vec::new();
            let mut i: usize = 0;
            while i < list.len()
                invariant
                    i <= list@.len(),
                    blobs.wf(),
                    known == blob_views(blobs@),
                    all == sorting::views(list@),
                    entry@ == StoredEntryView::Present(all),
                    loaded@.len() == i,
                    forall|k: int|
                        0 <= k < i ==> known.contains_key((#[trigger] all[k]).inserted_blob),
                    forall|k: int| 0 <= k < i ==> (#[trigger] loaded@[k])@ == loaded_op(all[k], known),
                decreases list@.len() - i,
            {
                let op = &list[i];
                assert(all[i as int] == op@);
                match blobs.get(op.inserted_blob.as_str()) {
                    None => {
                        assert(!known.contains_key(all[i as int].inserted_blob));
                        return None;
                    },
                    Some(bytes) => {
                        loaded.push(
                            FileOpStorageSnapshot {
                                id: op.id,
                                base_start: op.base_start,
                                base_len: op.base_len,
                                order_key: op.order_key.clone(),
                                inserted: vstd::slice::slice_to_vec(bytes.as_slice()),
                            },
                        );
                    },
                }
                i = i + 1;
            }
            assert(ops::stored_ops_view(loaded@) =~= all.map_values(
                |op: StoredOpView| loaded_op(op, known),
            ));
            Some(LaneEntryStorageSnapshot::Present(loaded))
        },
    }
}

fn copy_base(base: &BaseStorageSnapshot) -> (r: BaseStorageSnapshot)
    ensures
        r@ == base@,
{
    match base {
        BaseStorageSnapshot::Present(fingerprint) => BaseStorageSnapshot::Present(*fingerprint),
        BaseStorageSnapshot::Missing => BaseStorageSnapshot::Missing,
    }
}

fn load_file(file: &StoredFile, blobs: &TextMap<Vec<u8>>) -> (r: Option<LaneFileStorageSnapshot>)
    requires
        blobs.wf(),
        file.lanes.wf(),
    ensures
        match r {
            Some(loaded) => {
                &&& loaded.lanes.wf()
                &&& file_complete(file@, blob_views(blobs@))
                &&& loaded@ == loaded_file(file@, blob_views(blobs@))
            },
            None => !file_complete(file@, blob_views(blobs@)),
        },
{
    let ghost known = blob_views(blobs@);
    let mut lanes: TextMap<LaneEntryStorageSnapshot> = TextMap::new();
    let mut i: usize = 0;
    proof {
        file.lanes.lemma_wf();
    }
    while i < file.lanes.len()
        invariant
            i <= file.lanes.pairs().len(),
            file.lanes.wf(),
            blobs.wf(),
            known == blob_views(blobs@),
            lanes.wf(),
            forall|m: int|
                0 <= m < i ==> lanes@.contains_key((#[trigger] file.lanes.pairs()[m]).0),
            forall|k: Seq<char>| #[trigger]
                lanes@.contains_key(k) ==> {
                    &&& file.lanes@.contains_key(k)
                    &&& entry_complete(file.lanes@[k]@, known)
                    &&& lanes@[k]@ == loaded_entry(file.lanes@[k]@, known)
                },
        decreases file.lanes.pairs().len() - i,
    {
        let lane = file.lanes.key_at(i);
        let entry = file.lanes.value_at(i);
        proof {
            file.lanes.lemma_wf();
            assert(file.lanes@.contains_key(file.lanes.pairs()[i as int].0));
            assert(file.lanes@[lane@] == *entry);
            assert(file@.lanes[lane@] == entry@);
        }
        match load_entry(entry, blobs) {
            None => {
                assert(file@.lanes.contains_key(lane@));
                return None;
            },
            Some(loaded) => {
                let _ = lanes.insert(lane.to_owned(), loaded);
            },
        }
        i = i + 1;
    }
    let loaded = LaneFileStorageSnapshot { base: copy_base(&file.base), lanes };
    proof {
        file.lanes.lemma_wf();
        assert forall|k: Seq<char>| #[trigger] file.lanes@.contains_key(k) implies lanes@.contains_key(
            k,
        ) by {
            let m = choose|m: int|
                0 <= m < file.lanes.pairs().len() && (#[trigger] file.lanes.pairs()[m]).0 == k;
            assert(lanes@.contains_key(file.lanes.pairs()[m].0));
        }
        assert forall|k: Seq<char>| #[trigger] file@.lanes.contains_key(k) implies entry_complete(
            file@.lanes[k],
            known,
        ) by {
            assert(lanes@.contains_key(k));
        }
        assert(loaded@.lanes =~= loaded_file(file@, known).lanes);
    }
    Some(loaded)
}

/// The repo that a stored one stands for, if the bytes of all its operations are at hand.
pub fn stored_repo_to_snapshot(stored: &StoredRepo, blobs: &TextMap<Vec<u8>>) -> (r: Option<
    LaneRepoStorageSnapshot,
>)
    requires
        stored.wf(),
        blobs.wf(),
    ensures
        match r {
            Some(snapshot) => {
                &&& repo::snapshot_wf(snapshot)
                &&& repo_complete(stored@, blob_views(blobs@))
                &&& snapshot@ == loaded_repo(stored@, blob_views(blobs@))
            },
            None => !repo_complete(stored@, blob_views(blobs@)),
        },
{
    let ghost known = blob_views(blobs@);
    let mut files: TextMap<LaneFileStorageSnapshot> = TextMap::new();
    let mut i: usize = 0;
    proof {
        stored.files.lemma_wf();
    }
    while i < stored.files.len()
        invariant
            i <= stored.files.pairs().len(),
            stored.wf(),
            blobs.wf(),
            known == blob_views(blobs@),
            files.wf(),
            forall|m: int|
                0 <= m < i ==> files@.contains_key((#[trigger] stored.files.pairs()[m]).0),
            forall|k: Seq<char>| #[trigger]
                files@.contains_key(k) ==> {
                    &&& stored.files@.contains_key(k)
                    &&& files@[k].lanes.wf()
                    &&& file_complete(stored.files@[k]@, known)
                    &&& files@[k]@ == loaded_file(stored.files@[k]@, known)
                },
        decreases stored.files.pairs().len() - i,
    {
        let path = stored.files.key_at(i);
        let file = stored.files.value_at(i);
        proof {
            stored.files.lemma_wf();
            assert(stored.files@.contains_key(stored.files.pairs()[i as int].0));
            assert(stored.files@[path@] == *file);
            assert(stored@.files[path@] == file@);
        }
        match load_file(file, blobs) {
            None => {
                assert(stored@.files.contains_key(path@));
                return None;
            },
            Some(loaded) => {
                let _ = files.insert(path.to_owned(), loaded);
            },
        }
        i = i + 1;
    }
    let mut lanes: TextMap<()> = TextMap::new();
    let mut j: usize = 0;
    proof {
        stored.lanes.lemma_wf();
    }
    while j < stored.lanes.len()
        invariant
            j <= stored.lanes.pairs().len(),
            stored.lanes.wf(),
            lanes.wf(),
            forall|k: Seq<char>| #[trigger] lanes@.contains_key(k) ==> stored.lanes@.contains_key(k),
            forall|m: int|
                0 <= m < j ==> lanes@.contains_key((#[trigger] stored.lanes.pairs()[m]).0),
        decreases stored.lanes.pairs().len() - j,
    {
        proof {
            stored.lanes.lemma_wf();
        }
        let _ = lanes.insert(stored.lanes.key_at(j).to_owned(), ());
        j = j + 1;
    }
    let last_exec: TextMap<LaneRunState> = TextMap::new();
    let snapshot = LaneRepoStorageSnapshot { lanes, last_exec, files };
    proof {
        stored.files.lemma_wf();
        stored.lanes.lemma_wf();
        assert forall|k: Seq<char>| #[trigger] stored.files@.contains_key(k) implies files@.contains_key(
            k,
        ) by {
            let m = choose|m: int|
                0 <= m < stored.files.pairs().len() && (#[trigger] stored.files.pairs()[m]).0 == k;
            assert(files@.contains_key(stored.files.pairs()[m].0));
        }
        assert forall|k: Seq<char>| #[trigger] stored.lanes@.contains_key(k) implies lanes@.contains_key(
            k,
        ) by {
            let m = choose|m: int|
                0 <= m < stored.lanes.pairs().len() && (#[trigger] stored.lanes.pairs()[m]).0 == k;
            assert(lanes@.contains_key(stored.lanes.pairs()[m].0));
        }
        assert forall|k: Seq<char>| #[trigger] stored@.files.contains_key(k) implies file_complete(
            stored@.files[k],
            known,
        ) by {
            assert(files@.contains_key(k));
        }
        assert(snapshot@.lanes =~= stored@.lanes);
        assert(snapshot@.runs =~= Map::empty());
        assert(snapshot@.files =~= loaded_repo(stored@, known).files);
    }
    Some(snapshot)
}

} // verus!
