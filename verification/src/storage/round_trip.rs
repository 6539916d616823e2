//! What is written to storage is what is read from it.
use vstd::prelude::*;

use crate::lane_file::{Entry, File};
use crate::numbers;
use crate::ops::Op;
use crate::repo;
use crate::repo::Repo;
use crate::storage::encode;
use crate::storage::rows;
use crate::storage::rows::{
    EntryRowView, OpRowView, StoredEntryView, StoredFileView, StoredOpView, StoredRepoView,
};
use crate::storage::values;
use crate::text;
use crate::text_map;
use crate::types;
use crate::types::LaneErrorView;

verus! {

/// A stored operation.
pub open spec fn stored_op(op: Op) -> StoredOpView {
    StoredOpView {
        id: op.id as nat,
        base_start: op.start as nat,
        base_len: op.len as nat,
        order_key: op.key,
        inserted_blob: values::blob_name(op.inserted),
        inserted_len: op.inserted.len(),
    }
}

/// Stored operations.
pub open spec fn stored_ops(list: Seq<Op>) -> Seq<StoredOpView> {
    list.map_values(|op: Op| stored_op(op))
}

/// A stored entry.
pub open spec fn stored_entry(entry: Entry) -> StoredEntryView {
    match entry {
        Entry::Present(list) => StoredEntryView::Present(stored_ops(list)),
        Entry::Deleted => StoredEntryView::Deleted,
    }
}

/// A stored entry before its operations have been read.
pub open spec fn blank_entry(entry: Entry) -> StoredEntryView {
    match entry {
        Entry::Present(_) => StoredEntryView::Present(Seq::empty()),
        Entry::Deleted => StoredEntryView::Deleted,
    }
}

/// A file of which the entries of some lanes and the operations of some have been read.
pub open spec fn stage_file(file: File, opened: Set<Seq<char>>, filled: Set<Seq<char>>) -> StoredFileView {
    StoredFileView {
        base: file.base,
        lanes: Map::new(
            |l: Seq<char>| file.lanes.contains_key(l) && opened.contains(l),
            |l: Seq<char>|
                if filled.contains(l) {
                    stored_entry(file.lanes[l])
                } else {
                    blank_entry(file.lanes[l])
                },
        ),
    }
}

/// All lanes, or none.
pub open spec fn all_or_none(all: bool) -> Set<Seq<char>> {
    if all {
        Set::full()
    } else {
        Set::empty()
    }
}

/// The files of which the rows of some, the entries of some and the operations of some have been
/// read.
pub open spec fn stage(
    files: Map<Seq<char>, File>,
    named: Set<Seq<char>>,
    opened: Set<Seq<char>>,
    filled: Set<Seq<char>>,
) -> Map<Seq<char>, StoredFileView> {
    Map::new(
        |p: Seq<char>| files.contains_key(p) && named.contains(p),
        |p: Seq<char>|
            stage_file(files[p], all_or_none(opened.contains(p)), all_or_none(filled.contains(p))),
    )
}

/// The stored form of a repo.
pub open spec fn stored_repo(state: Repo) -> StoredRepoView {
    StoredRepoView {
        version: values::STORE_VERSION as nat,
        lanes: state.lanes,
        files: stage(state.files, Set::full(), Set::full(), Set::full()),
    }
}

/// The numbers of an operation fit their fields.
pub open spec fn op_fits(op: Op) -> bool {
    &&& 0 <= op.id <= u64::MAX
    &&& 0 <= op.start <= u64::MAX
    &&& 0 <= op.len <= u64::MAX
    &&& op.inserted.len() <= u64::MAX
}

/// The numbers of an entry fit their fields.
pub open spec fn entry_fits(entry: Entry) -> bool {
    entry matches Entry::Present(list) ==> forall|i: int|
        0 <= i < list.len() ==> op_fits(#[trigger] list[i])
}

/// A file that can be stored under a path.
pub open spec fn file_fits(path: Seq<char>, file: File) -> bool {
    &&& types::parsed_path(path) == Ok::<Seq<char>, LaneErrorView>(path)
    &&& file.base matches Some(fingerprint) ==> fingerprint.len() == 32
    &&& file.lanes.dom().finite()
    &&& forall|l: Seq<char>| #[trigger]
        file.lanes.contains_key(l) ==> types::user_lane(l) && entry_fits(file.lanes[l])
}

/// A repo that can be stored: paths are in normal form, digests have their length, and numbers
/// fit their fields.
pub open spec fn storable(state: Repo) -> bool {
    &&& state.lanes.finite()
    &&& state.files.dom().finite()
    &&& forall|l: Seq<char>| #[trigger] state.lanes.contains(l) ==> types::user_lane(l)
    &&& forall|p: Seq<char>| #[trigger]
        state.files.contains_key(p) ==> file_fits(p, state.files[p])
}

proof fn lemma_stored_number(n: nat, field: Seq<char>)
    requires
        n <= u64::MAX,
    ensures
        values::stored_number(numbers::decimal_text(n), field) == Ok::<nat, Seq<char>>(n),
{
    numbers::lemma_decimal_round_trip(n, u64::MAX as nat);
    values::lemma_no_number_fault(numbers::decimal_text(n), u64::MAX as nat);
}

/// The characters of an ASCII text as bytes.
spec fn ascii_bytes(s: Seq<char>) -> Seq<u8> {
    Seq::new(s.len(), |i: int| s[i] as u8)
}

proof fn lemma_hex_char(d: nat)
    requires
        d < 16,
    ensures
        '\0' <= numbers::hex_char(d) <= '\u{7f}',
        values::byte_hex_value(numbers::hex_char(d) as u8) == Some(d),
{
    numbers::lemma_hex_char_value(d);
    let c = numbers::hex_char(d);
    assert((c as u8) as char == c);
}

proof fn lemma_hex_is_ascii(bytes: Seq<u8>)
    ensures
        vstd::utf8::is_ascii_chars(numbers::hex_text(bytes)),
    decreases bytes.len(),
{
    if bytes.len() > 0 {
        lemma_hex_is_ascii(bytes.drop_last());
        lemma_hex_char(bytes.last() as nat / 16);
        lemma_hex_char(bytes.last() as nat % 16);
        let shorter = numbers::hex_text(bytes.drop_last());
        let longer = numbers::hex_text(bytes);
        assert forall|i: int| 0 <= i < longer.len() implies '\0' <= #[trigger] longer[i] <= '\u{7f}' by {
            if i < shorter.len() {
                assert(longer[i] == shorter[i]);
            }
        }
    }
}

proof fn lemma_hex_pairs(bytes: Seq<u8>)
    ensures
        values::hex_pairs(ascii_bytes(numbers::hex_text(bytes))) == Ok::<Seq<u8>, Seq<char>>(bytes),
    decreases bytes.len(),
{
    let digits = ascii_bytes(numbers::hex_text(bytes));
    numbers::lemma_hex_text_at(bytes);
    if bytes.len() == 0 {
        assert(values::hex_pairs(digits)->Ok_0 =~= bytes);
    } else {
        let rest = bytes.drop_last();
        numbers::lemma_hex_text_at(rest);
        lemma_hex_pairs(rest);
        let n = digits.len() as int;
        let hi = bytes.last() as nat / 16;
        let lo = bytes.last() as nat % 16;
        lemma_hex_char(hi);
        lemma_hex_char(lo);
        assert(digits.subrange(0, n - 2) =~= ascii_bytes(numbers::hex_text(rest)));
        assert(digits[n - 2] == numbers::hex_char(hi) as u8);
        assert(digits[n - 1] == numbers::hex_char(lo) as u8);
        assert(hi * 16 + lo == bytes.last());
        assert(rest.push(bytes.last()) =~= bytes);
    }
}

/// A digest in hexadecimal reads back as the digest.
pub proof fn law_fingerprint_round_trip(fingerprint: Seq<u8>)
    requires
        fingerprint.len() == 32,
    ensures
        values::parsed_fingerprint(numbers::hex_text(fingerprint)) == Ok::<Seq<u8>, Seq<char>>(
            fingerprint,
        ),
{
    let s = numbers::hex_text(fingerprint);
    lemma_hex_is_ascii(fingerprint);
    vstd::utf8::is_ascii_chars_encode_utf8(s);
    numbers::lemma_hex_text_at(fingerprint);
    assert(vstd::utf8::encode_utf8(s) =~= ascii_bytes(s));
    lemma_hex_pairs(fingerprint);
}

proof fn lemma_base_round_trip(base: Option<Seq<u8>>)
    requires
        base matches Some(fingerprint) ==> fingerprint.len() == 32,
    ensures
        values::parsed_base(values::base_texts(base).0, values::base_texts(base).1) == Ok::<
            Option<Seq<u8>>,
            Seq<char>,
        >(base),
{
    reveal_strlit("present");
    reveal_strlit("missing");
    match base {
        Some(fingerprint) => {
            law_fingerprint_round_trip(fingerprint);
        },
        None => {
            assert("missing"@[0] != "present"@[0]);
        },
    }
}

// Lanes.

proof fn lemma_lanes_of_listing(list: Seq<Seq<char>>)
    requires
        forall|i: int| 0 <= i < list.len() ==> types::user_lane(#[trigger] list[i]),
    ensures
        rows::lanes_of_rows(list) is Ok,
        forall|l: Seq<char>| #[trigger] rows::lanes_of_rows(list)->Ok_0.contains(l) <==> list.contains(l),
    decreases list.len(),
{
    if list.len() > 0 {
        let rest = list.drop_last();
        assert forall|i: int| 0 <= i < rest.len() implies types::user_lane(#[trigger] rest[i]) by {
            assert(types::user_lane(list[i]));
        }
        lemma_lanes_of_listing(rest);
        let last = list.last();
        assert(types::user_lane(list[list.len() - 1]));
        assert forall|l: Seq<char>| #[trigger] rows::lanes_of_rows(list)->Ok_0.contains(l) <==> list.contains(l) by {
            if list.contains(l) {
                let i = choose|i: int| 0 <= i < list.len() && list[i] == l;
                if i < rest.len() {
                    assert(rest[i] == l);
                }
            }
            if rest.contains(l) {
                let i = choose|i: int| 0 <= i < rest.len() && rest[i] == l;
                assert(list[i] == l);
            }
            assert(list[list.len() - 1] == last);
        }
    }
}

// Files.

proof fn lemma_sorted_distinct(list: Seq<Seq<char>>)
    requires
        text_map::sorted_texts(list),
    ensures
        list.no_duplicates(),
{
    assert forall|i: int, j: int| 0 <= i < list.len() && 0 <= j < list.len() && i != j implies list[i]
        != list[j] by {
        if i < j {
            assert(text::text_lt(list[i], list[j]));
        } else {
            assert(text::text_lt(list[j], list[i]));
        }
        text::lemma_text_lt_irreflexive(list[i]);
    }
}

/// What the beginning of a list without duplicates holds.
proof fn lemma_prefix(list: Seq<Seq<char>>)
    requires
        list.len() > 0,
        list.no_duplicates(),
    ensures
        list.drop_last().no_duplicates(),
        !list.drop_last().to_set().contains(list.last()),
        list.to_set() =~= list.drop_last().to_set().insert(list.last()),
{
    let rest = list.drop_last();
    assert forall|l: Seq<char>| list.to_set().contains(l) <==> rest.to_set().insert(
        list.last(),
    ).contains(l) by {
        if list.contains(l) {
            let i = choose|i: int| 0 <= i < list.len() && list[i] == l;
            if i < rest.len() {
                assert(rest[i] == l);
            }
        }
        if rest.contains(l) {
            let i = choose|i: int| 0 <= i < rest.len() && rest[i] == l;
            assert(list[i] == l);
        }
        assert(list[list.len() - 1] == list.last());
    }
    if rest.contains(list.last()) {
        let i = choose|i: int| 0 <= i < rest.len() && rest[i] == list.last();
        assert(list[i] == list[list.len() - 1]);
    }
}

proof fn lemma_file_rows(files: Map<Seq<char>, File>, paths: Seq<Seq<char>>)
    requires
        paths.no_duplicates(),
        forall|i: int| 0 <= i < paths.len() ==> files.contains_key(#[trigger] paths[i]),
        forall|p: Seq<char>| #[trigger] files.contains_key(p) ==> file_fits(p, files[p]),
    ensures
        rows::files_of_rows(encode::repo_file_rows(files, paths)) == Ok::<
            Map<Seq<char>, StoredFileView>,
            Seq<char>,
        >(stage(files, paths.to_set(), Set::empty(), Set::empty())),
    decreases paths.len(),
{
    let all = encode::repo_file_rows(files, paths);
    if paths.len() == 0 {
        assert(stage(files, paths.to_set(), Set::empty(), Set::empty()) =~= Map::empty());
    } else {
        let rest = paths.drop_last();
        let path = paths.last();
        lemma_prefix(paths);
        assert forall|i: int| 0 <= i < rest.len() implies files.contains_key(#[trigger] rest[i]) by {
            assert(files.contains_key(paths[i]));
        }
        lemma_file_rows(files, rest);
        assert(all.drop_last() =~= encode::repo_file_rows(files, rest));
        assert(files.contains_key(paths[paths.len() - 1]));
        let file = files[path];
        lemma_base_round_trip(file.base);
        let before = stage(files, rest.to_set(), Set::empty(), Set::empty());
        let after = stage(files, paths.to_set(), Set::empty(), Set::empty());
        let added = StoredFileView { base: file.base, lanes: Map::empty() };
        assert(after[path].lanes =~= Map::empty());
        assert(after =~= before.insert(path, added));
    }
}

// Entries.

proof fn lemma_entries_append(
    files: Map<Seq<char>, StoredFileView>,
    a: Seq<EntryRowView>,
    b: Seq<EntryRowView>,
)
    requires
        rows::entries_of_rows(files, a) is Ok,
    ensures
        rows::entries_of_rows(files, a + b) == rows::entries_of_rows(
            rows::entries_of_rows(files, a)->Ok_0,
            b,
        ),
    decreases b.len(),
{
    if b.len() == 0 {
        assert(a + b =~= a);
    } else {
        lemma_entries_append(files, a, b.drop_last());
        assert((a + b).drop_last() =~= a + b.drop_last());
    }
}

proof fn lemma_file_entries(
    files: Map<Seq<char>, StoredFileView>,
    path: Seq<char>,
    file: File,
    lanes: Seq<Seq<char>>,
)
    requires
        file_fits(path, file),
        lanes.no_duplicates(),
        forall|i: int| 0 <= i < lanes.len() ==> file.lanes.contains_key(#[trigger] lanes[i]),
        files.contains_key(path),
        files[path] == stage_file(file, Set::empty(), Set::empty()),
    ensures
        rows::entries_of_rows(files, encode::file_entry_rows(path, file, lanes)) == Ok::<
            Map<Seq<char>, StoredFileView>,
            Seq<char>,
        >(files.insert(path, stage_file(file, lanes.to_set(), Set::empty()))),
    decreases lanes.len(),
{
    let all = encode::file_entry_rows(path, file, lanes);
    if lanes.len() == 0 {
        assert(stage_file(file, lanes.to_set(), Set::empty()).lanes =~= stage_file(
            file,
            Set::empty(),
            Set::empty(),
        ).lanes);
        assert(files.insert(path, files[path]) =~= files);
    } else {
        let rest = lanes.drop_last();
        let lane = lanes.last();
        lemma_prefix(lanes);
        assert forall|i: int| 0 <= i < rest.len() implies file.lanes.contains_key(#[trigger] rest[i]) by {
            assert(file.lanes.contains_key(lanes[i]));
        }
        lemma_file_entries(files, path, file, rest);
        assert(all.drop_last() =~= encode::file_entry_rows(path, file, rest));
        assert(file.lanes.contains_key(lanes[lanes.len() - 1]));
        assert(types::user_lane(lane));
        reveal_strlit("present");
        reveal_strlit("deleted");
        assert("present"@[0] != "deleted"@[0]);
        let before = stage_file(file, rest.to_set(), Set::empty());
        let after = stage_file(file, lanes.to_set(), Set::empty());
        assert(after.lanes =~= before.lanes.insert(lane, blank_entry(file.lanes[lane])));
        let mid = files.insert(path, before);
        assert(mid.insert(path, after) =~= files.insert(path, after));
    }
}

proof fn lemma_repo_entries(files: Map<Seq<char>, File>, named: Set<Seq<char>>, paths: Seq<Seq<char>>)
    requires
        paths.no_duplicates(),
        forall|i: int|
            0 <= i < paths.len() ==> files.contains_key(#[trigger] paths[i]) && named.contains(
                paths[i],
            ),
        forall|p: Seq<char>| #[trigger] files.contains_key(p) ==> file_fits(p, files[p]),
    ensures
        rows::entries_of_rows(
            stage(files, named, Set::empty(), Set::empty()),
            encode::repo_entry_rows(files, paths),
        ) == Ok::<Map<Seq<char>, StoredFileView>, Seq<char>>(
            stage(files, named, paths.to_set(), Set::empty()),
        ),
    decreases paths.len(),
{
    let start = stage(files, named, Set::empty(), Set::empty());
    if paths.len() == 0 {
        assert(stage(files, named, paths.to_set(), Set::empty()) =~= start);
    } else {
        let rest = paths.drop_last();
        let path = paths.last();
        lemma_prefix(paths);
        assert forall|i: int| 0 <= i < rest.len() implies files.contains_key(#[trigger] rest[i])
            && named.contains(rest[i]) by {
            assert(files.contains_key(paths[i]));
        }
        lemma_repo_entries(files, named, rest);
        assert(files.contains_key(paths[paths.len() - 1]));
        let file = files[path];
        let lanes = encode::lane_order(file);
        text_map::lemma_listing_exists(file.lanes.dom());
        lemma_sorted_distinct(lanes);
        assert forall|i: int| 0 <= i < lanes.len() implies file.lanes.contains_key(#[trigger] lanes[i]) by {
            assert(lanes.contains(lanes[i]));
        }
        let before = stage(files, named, rest.to_set(), Set::empty());
        let after = stage(files, named, paths.to_set(), Set::empty());
        lemma_entries_append(
            start,
            encode::repo_entry_rows(files, rest),
            encode::file_entry_rows(path, file, lanes),
        );
        lemma_file_entries(before, path, file, lanes);
        assert(after[path].lanes =~= stage_file(file, lanes.to_set(), Set::empty()).lanes) by {
            assert forall|l: Seq<char>| file.lanes.contains_key(l) implies lanes.to_set().contains(l) by {
                assert(lanes.contains(l) <==> file.lanes.dom().contains(l));
            }
        }
        assert(after =~= before.insert(path, stage_file(file, lanes.to_set(), Set::empty())));
    }
}

// Operations.

proof fn lemma_ops_append(
    files: Map<Seq<char>, StoredFileView>,
    a: Seq<OpRowView>,
    b: Seq<OpRowView>,
)
    requires
        rows::ops_of_rows(files, a) is Ok,
    ensures
        rows::ops_of_rows(files, a + b) == rows::ops_of_rows(rows::ops_of_rows(files, a)->Ok_0, b),
    decreases b.len(),
{
    if b.len() == 0 {
        assert(a + b =~= a);
    } else {
        lemma_ops_append(files, a, b.drop_last());
        assert((a + b).drop_last() =~= a + b.drop_last());
    }
}

proof fn lemma_op_row(path: Seq<char>, lane: Seq<char>, ordinal: nat, op: Op)
    requires
        op_fits(op),
    ensures
        rows::op_of_row(encode::op_row(path, lane, ordinal, op)) == Ok::<StoredOpView, Seq<char>>(
            stored_op(op),
        ),
{
    lemma_stored_number(op.id as nat, "id"@);
    lemma_stored_number(op.start as nat, "base_start"@);
    lemma_stored_number(op.len as nat, "base_len"@);
    lemma_stored_number(op.inserted.len(), "inserted_len"@);
}

proof fn lemma_entry_ops(
    files: Map<Seq<char>, StoredFileView>,
    path: Seq<char>,
    lane: Seq<char>,
    list: Seq<Op>,
)
    requires
        types::parsed_path(path) == Ok::<Seq<char>, LaneErrorView>(path),
        types::user_lane(lane),
        forall|i: int| 0 <= i < list.len() ==> op_fits(#[trigger] list[i]),
        files.contains_key(path),
        files[path].lanes.contains_key(lane),
        files[path].lanes[lane] == StoredEntryView::Present(Seq::empty()),
    ensures
        rows::ops_of_rows(files, encode::op_rows(path, lane, list)) == Ok::<
            Map<Seq<char>, StoredFileView>,
            Seq<char>,
        >(
            files.insert(
                path,
                StoredFileView {
                    lanes: files[path].lanes.insert(
                        lane,
                        StoredEntryView::Present(stored_ops(list)),
                    ),
                    ..files[path]
                },
            ),
        ),
    decreases list.len(),
{
    let all = encode::op_rows(path, lane, list);
    let file = files[path];
    if list.len() == 0 {
        assert(stored_ops(list) =~= Seq::empty());
        assert(file.lanes.insert(lane, file.lanes[lane]) =~= file.lanes);
        assert(files.insert(path, file) =~= files);
    } else {
        let rest = list.drop_last();
        assert forall|i: int| 0 <= i < rest.len() implies op_fits(#[trigger] rest[i]) by {
            assert(op_fits(list[i]));
        }
        lemma_entry_ops(files, path, lane, rest);
        assert(all.drop_last() =~= encode::op_rows(path, lane, rest));
        assert(op_fits(list[list.len() - 1]));
        lemma_op_row(path, lane, (list.len() - 1) as nat, list.last());
        let mid_file = StoredFileView {
            lanes: file.lanes.insert(lane, StoredEntryView::Present(stored_ops(rest))),
            ..file
        };
        let mid = files.insert(path, mid_file);
        assert(stored_ops(rest).push(stored_op(list.last())) =~= stored_ops(list));
        let last_lanes = file.lanes.insert(lane, StoredEntryView::Present(stored_ops(list)));
        assert(mid_file.lanes.insert(lane, StoredEntryView::Present(stored_ops(list)))
            =~= last_lanes);
        let last_file = StoredFileView { lanes: last_lanes, ..file };
        assert(mid.insert(path, last_file) =~= files.insert(path, last_file));
    }
}

proof fn lemma_file_ops(
    files: Map<Seq<char>, StoredFileView>,
    path: Seq<char>,
    file: File,
    lanes: Seq<Seq<char>>,
)
    requires
        file_fits(path, file),
        lanes.no_duplicates(),
        forall|i: int| 0 <= i < lanes.len() ==> file.lanes.contains_key(#[trigger] lanes[i]),
        files.contains_key(path),
        files[path] == stage_file(file, Set::full(), Set::empty()),
    ensures
        rows::ops_of_rows(files, encode::file_op_rows(path, file, lanes)) == Ok::<
            Map<Seq<char>, StoredFileView>,
            Seq<char>,
        >(files.insert(path, stage_file(file, Set::full(), lanes.to_set()))),
    decreases lanes.len(),
{
    if lanes.len() == 0 {
        assert(stage_file(file, Set::full(), lanes.to_set()).lanes =~= files[path].lanes);
        assert(files.insert(path, files[path]) =~= files);
    } else {
        let rest = lanes.drop_last();
        let lane = lanes.last();
        lemma_prefix(lanes);
        assert forall|i: int| 0 <= i < rest.len() implies file.lanes.contains_key(#[trigger] rest[i]) by {
            assert(file.lanes.contains_key(lanes[i]));
        }
        lemma_file_ops(files, path, file, rest);
        assert(file.lanes.contains_key(lanes[lanes.len() - 1]));
        let entry = file.lanes[lane];
        lemma_ops_append(
            files,
            encode::file_op_rows(path, file, rest),
            encode::entry_op_rows(path, lane, entry),
        );
        let before = stage_file(file, Set::full(), rest.to_set());
        let after = stage_file(file, Set::full(), lanes.to_set());
        let mid = files.insert(path, before);
        assert(mid[path] == before);
        assert(after.lanes =~= before.lanes.insert(lane, stored_entry(entry)));
        match entry {
            Entry::Present(list) => {
                lemma_entry_ops(mid, path, lane, list);
                assert(mid.insert(path, after) =~= files.insert(path, after));
            },
            Entry::Deleted => {
                assert(before.lanes.insert(lane, before.lanes[lane]) =~= before.lanes);
                assert(after.lanes =~= before.lanes);
            },
        }
    }
}

proof fn lemma_repo_ops(files: Map<Seq<char>, File>, named: Set<Seq<char>>, opened: Set<Seq<char>>, paths:
    Seq<Seq<char>>)
    requires
        paths.no_duplicates(),
        forall|i: int|
            0 <= i < paths.len() ==> files.contains_key(#[trigger] paths[i]) && named.contains(
                paths[i],
            ) && opened.contains(paths[i]),
        forall|p: Seq<char>| #[trigger] files.contains_key(p) ==> file_fits(p, files[p]),
    ensures
        rows::ops_of_rows(
            stage(files, named, opened, Set::empty()),
            encode::repo_op_rows(files, paths),
        ) == Ok::<Map<Seq<char>, StoredFileView>, Seq<char>>(
            stage(files, named, opened, paths.to_set()),
        ),
    decreases paths.len(),
{
    let start = stage(files, named, opened, Set::empty());
    if paths.len() == 0 {
        assert(stage(files, named, opened, paths.to_set()) =~= start);
    } else {
        let rest = paths.drop_last();
        let path = paths.last();
        lemma_prefix(paths);
        assert forall|i: int| 0 <= i < rest.len() implies files.contains_key(#[trigger] rest[i])
            && named.contains(rest[i]) && opened.contains(rest[i]) by {
            assert(files.contains_key(paths[i]));
        }
        lemma_repo_ops(files, named, opened, rest);
        assert(files.contains_key(paths[paths.len() - 1]));
        let file = files[path];
        let lanes = encode::lane_order(file);
        text_map::lemma_listing_exists(file.lanes.dom());
        lemma_sorted_distinct(lanes);
        assert forall|i: int| 0 <= i < lanes.len() implies file.lanes.contains_key(#[trigger] lanes[i]) by {
            assert(lanes.contains(lanes[i]));
        }
        let before = stage(files, named, opened, rest.to_set());
        let after = stage(files, named, opened, paths.to_set());
        lemma_ops_append(
            start,
            encode::repo_op_rows(files, rest),
            encode::file_op_rows(path, file, lanes),
        );
        lemma_file_ops(before, path, file, lanes);
        assert(after[path].lanes =~= stage_file(file, Set::full(), lanes.to_set()).lanes) by {
            assert forall|l: Seq<char>| file.lanes.contains_key(l) implies lanes.to_set().contains(l) by {
                assert(lanes.contains(l) <==> file.lanes.dom().contains(l));
            }
        }
        assert(after =~= before.insert(path, stage_file(file, Set::full(), lanes.to_set())));
    }
}

/// The tables that are written for a repo read back as that repo.
pub proof fn law_rows_round_trip(state: Repo)
    requires
        storable(state),
    ensures
        rows::repo_of_rows(encode::repo_rows(state)) == Ok::<StoredRepoView, Seq<char>>(
            stored_repo(state),
        ),
{
    let lanes = text_map::listing(state.lanes);
    let paths = text_map::listing(state.files.dom());
    text_map::lemma_listing_exists(state.lanes);
    text_map::lemma_listing_exists(state.files.dom());
    lemma_sorted_distinct(paths);
    numbers::lemma_decimal_round_trip(values::STORE_VERSION as nat, u32::MAX as nat);
    values::lemma_no_number_fault(
        numbers::decimal_text(values::STORE_VERSION as nat),
        u32::MAX as nat,
    );
    assert forall|i: int| 0 <= i < lanes.len() implies types::user_lane(#[trigger] lanes[i]) by {
        assert(lanes.contains(lanes[i]));
    }
    lemma_lanes_of_listing(lanes);
    assert(rows::lanes_of_rows(lanes)->Ok_0 =~= state.lanes);
    assert forall|i: int| 0 <= i < paths.len() implies state.files.contains_key(#[trigger] paths[i])
        && paths.to_set().contains(paths[i]) by {
        assert(paths.contains(paths[i]));
    }
    lemma_file_rows(state.files, paths);
    lemma_repo_entries(state.files, paths.to_set(), paths);
    lemma_repo_ops(state.files, paths.to_set(), paths.to_set(), paths);
    assert forall|p: Seq<char>| state.files.contains_key(p) implies paths.to_set().contains(p) by {
        assert(paths.contains(p) <==> state.files.dom().contains(p));
    }
    assert(stage(state.files, paths.to_set(), paths.to_set(), paths.to_set()) =~= stage(
        state.files,
        Set::full(),
        Set::full(),
        Set::full(),
    ));
}

/// Whether named byte strings hold the bytes of an entry.
pub open spec fn blobs_hold_entry(entry: Entry, blobs: Map<Seq<char>, Seq<u8>>) -> bool {
    entry matches Entry::Present(list) ==> forall|i: int|
        0 <= i < list.len() ==> blobs.contains_key(
            values::blob_name((#[trigger] list[i]).inserted),
        ) && blobs[values::blob_name(list[i].inserted)] == list[i].inserted
}

/// Whether named byte strings hold the bytes of every operation of a repo.
pub open spec fn blobs_hold(state: Repo, blobs: Map<Seq<char>, Seq<u8>>) -> bool {
    forall|p: Seq<char>, l: Seq<char>|
        state.files.contains_key(p) && #[trigger] state.files[p].lanes.contains_key(l)
            ==> blobs_hold_entry(state.files[p].lanes[l], blobs)
}

/// A repo that is stored and loaded again, with the byte strings that were written for it, is the
/// same repo. How the last commands ended is not part of it.
pub proof fn law_store_round_trip(state: Repo, blobs: Map<Seq<char>, Seq<u8>>)
    requires
        storable(state),
        blobs_hold(state, blobs),
    ensures
        rows::repo_of_rows(encode::repo_rows(state)) is Ok,
        encode::repo_complete(rows::repo_of_rows(encode::repo_rows(state))->Ok_0, blobs),
        encode::loaded_repo(rows::repo_of_rows(encode::repo_rows(state))->Ok_0, blobs) == (Repo {
            runs: Map::empty(),
            ..state
        }),
{
    law_rows_round_trip(state);
    let stored = stored_repo(state);
    assert forall|p: Seq<char>| #[trigger] stored.files.contains_key(p) implies encode::file_complete(
        stored.files[p],
        blobs,
    ) && encode::loaded_file(stored.files[p], blobs) == state.files[p] by {
        let file = state.files[p];
        let kept = stored.files[p];
        assert(file_fits(p, file));
        assert forall|l: Seq<char>| #[trigger] kept.lanes.contains_key(l) implies encode::entry_complete(
            kept.lanes[l],
            blobs,
        ) && encode::loaded_entry(kept.lanes[l], blobs) == file.lanes[l] by {
            assert(file.lanes.contains_key(l));
            assert(blobs_hold_entry(file.lanes[l], blobs));
            assert(entry_fits(file.lanes[l]));
            match file.lanes[l] {
                Entry::Present(list) => {
                    let loaded = stored_ops(list).map_values(
                        |op: StoredOpView| encode::loaded_op(op, blobs),
                    );
                    assert forall|i: int| 0 <= i < list.len() implies #[trigger] loaded[i] == list[i] by {
                        assert(op_fits(list[i]));
                    }
                    assert(loaded =~= list);
                    assert forall|i: int| 0 <= i < stored_ops(list).len() implies blobs.contains_key(
                        (#[trigger] stored_ops(list)[i]).inserted_blob,
                    ) by {
                        assert(blobs.contains_key(values::blob_name(list[i].inserted)));
                    }
                },
                Entry::Deleted => {},
            }
        }
        assert(encode::loaded_file(kept, blobs).lanes =~= file.lanes);
    }
    assert(encode::loaded_repo(stored, blobs).files =~= state.files);
}

// The byte strings that are written.

/// Whether some operation of a repo inserts these bytes.
pub open spec fn inserts(state: Repo, bytes: Seq<u8>) -> bool {
    exists|p: Seq<char>, l: Seq<char>, i: int| #[trigger] inserted_at(state, p, l, i, bytes)
}

/// Whether the operation at a place of a repo inserts these bytes.
pub open spec fn inserted_at(state: Repo, p: Seq<char>, l: Seq<char>, i: int, bytes: Seq<u8>) -> bool {
    &&& state.files.contains_key(p)
    &&& state.files[p].lanes.contains_key(l)
    &&& state.files[p].lanes[l] matches Entry::Present(list) && 0 <= i < list.len()
        && list[i].inserted == bytes
}

/// Whether the names tell the byte strings of a repo apart.
pub open spec fn names_distinguish(state: Repo) -> bool {
    forall|a: Seq<u8>, b: Seq<u8>|
        inserts(state, a) && inserts(state, b) && #[trigger] values::blob_name(a)
            == #[trigger] values::blob_name(b) ==> a == b
}

/// Byte strings of a repo, each under its name.
spec fn named_right(state: Repo, blobs: Map<Seq<char>, Seq<u8>>) -> bool {
    forall|k: Seq<char>| #[trigger]
        blobs.contains_key(k) ==> values::blob_name(blobs[k]) == k && inserts(state, blobs[k])
}

spec fn grown_from(before: Map<Seq<char>, Seq<u8>>, after: Map<Seq<char>, Seq<u8>>) -> bool {
    forall|k: Seq<char>| #[trigger] before.contains_key(k) ==> after.contains_key(k)
}

spec fn has_entry(entry: Entry, blobs: Map<Seq<char>, Seq<u8>>) -> bool {
    entry matches Entry::Present(list) ==> forall|i: int|
        0 <= i < list.len() ==> blobs.contains_key(values::blob_name((#[trigger] list[i]).inserted))
}

proof fn lemma_op_blobs(state: Repo, blobs: Map<Seq<char>, Seq<u8>>, list: Seq<Op>)
    requires
        named_right(state, blobs),
        forall|i: int| 0 <= i < list.len() ==> inserts(state, (#[trigger] list[i]).inserted),
    ensures
        named_right(state, encode::with_op_blobs(blobs, list)),
        grown_from(blobs, encode::with_op_blobs(blobs, list)),
        forall|i: int|
            0 <= i < list.len() ==> encode::with_op_blobs(blobs, list).contains_key(
                values::blob_name((#[trigger] list[i]).inserted),
            ),
    decreases list.len(),
{
    if list.len() > 0 {
        let rest = list.drop_last();
        assert forall|i: int| 0 <= i < rest.len() implies inserts(
            state,
            (#[trigger] rest[i]).inserted,
        ) by {
            assert(inserts(state, list[i].inserted));
        }
        lemma_op_blobs(state, blobs, rest);
        let before = encode::with_op_blobs(blobs, rest);
        let after = encode::with_op_blobs(blobs, list);
        assert(inserts(state, list[list.len() - 1].inserted));
        assert forall|i: int| 0 <= i < list.len() implies after.contains_key(
            values::blob_name((#[trigger] list[i]).inserted),
        ) by {
            if i < rest.len() {
                assert(before.contains_key(values::blob_name(rest[i].inserted)));
            }
        }
    }
}

proof fn lemma_file_blobs(
    state: Repo,
    blobs: Map<Seq<char>, Seq<u8>>,
    path: Seq<char>,
    lanes: Seq<Seq<char>>,
)
    requires
        named_right(state, blobs),
        state.files.contains_key(path),
        forall|i: int|
            0 <= i < lanes.len() ==> state.files[path].lanes.contains_key(#[trigger] lanes[i]),
    ensures
        ({
            let file = state.files[path];
            let after = encode::with_file_blobs(blobs, file, lanes);
            &&& named_right(state, after)
            &&& grown_from(blobs, after)
            &&& forall|i: int|
                0 <= i < lanes.len() ==> has_entry(file.lanes[#[trigger] lanes[i]], after)
        }),
    decreases lanes.len(),
{
    if lanes.len() > 0 {
        let file = state.files[path];
        let rest = lanes.drop_last();
        let lane = lanes.last();
        assert forall|i: int| 0 <= i < rest.len() implies file.lanes.contains_key(#[trigger] rest[i]) by {
            assert(file.lanes.contains_key(lanes[i]));
        }
        lemma_file_blobs(state, blobs, path, rest);
        let before = encode::with_file_blobs(blobs, file, rest);
        let after = encode::with_file_blobs(blobs, file, lanes);
        assert(file.lanes.contains_key(lanes[lanes.len() - 1]));
        match file.lanes[lane] {
            Entry::Present(list) => {
                assert forall|i: int| 0 <= i < list.len() implies inserts(
                    state,
                    (#[trigger] list[i]).inserted,
                ) by {
                    assert(inserted_at(state, path, lane, i, list[i].inserted));
                }
                lemma_op_blobs(state, before, list);
            },
            Entry::Deleted => {},
        }
        assert forall|i: int| 0 <= i < lanes.len() implies has_entry(
            file.lanes[#[trigger] lanes[i]],
            after,
        ) by {
            if i < rest.len() {
                assert(has_entry(file.lanes[rest[i]], before));
            }
        }
    }
}

proof fn lemma_files_blobs(state: Repo, paths: Seq<Seq<char>>)
    requires
        storable(state),
        forall|i: int| 0 <= i < paths.len() ==> state.files.contains_key(#[trigger] paths[i]),
    ensures
        ({
            let after = encode::files_blobs(state.files, paths);
            &&& named_right(state, after)
            &&& forall|i: int, l: Seq<char>|
                0 <= i < paths.len() && #[trigger] state.files[paths[i]].lanes.contains_key(l)
                    ==> has_entry(state.files[paths[i]].lanes[l], after)
        }),
    decreases paths.len(),
{
    if paths.len() > 0 {
        let rest = paths.drop_last();
        let path = paths.last();
        assert forall|i: int| 0 <= i < rest.len() implies state.files.contains_key(#[trigger] rest[i]) by {
            assert(state.files.contains_key(paths[i]));
        }
        lemma_files_blobs(state, rest);
        assert(state.files.contains_key(paths[paths.len() - 1]));
        let file = state.files[path];
        assert(file_fits(path, file));
        let lanes = encode::lane_order(file);
        text_map::lemma_listing_exists(file.lanes.dom());
        assert forall|i: int| 0 <= i < lanes.len() implies file.lanes.contains_key(#[trigger] lanes[i]) by {
            assert(lanes.contains(lanes[i]));
        }
        let before = encode::files_blobs(state.files, rest);
        let after = encode::files_blobs(state.files, paths);
        lemma_file_blobs(state, before, path, lanes);
        assert forall|i: int, l: Seq<char>|
            0 <= i < paths.len() && #[trigger] state.files[paths[i]].lanes.contains_key(
                l,
            ) implies has_entry(state.files[paths[i]].lanes[l], after) by {
            if i < rest.len() {
                assert(state.files[rest[i]].lanes.contains_key(l));
                assert(has_entry(state.files[rest[i]].lanes[l], before));
            } else {
                assert(lanes.contains(l) <==> file.lanes.dom().contains(l));
                let k = choose|k: int| 0 <= k < lanes.len() && lanes[k] == l;
                assert(has_entry(file.lanes[lanes[k]], after));
            }
        }
    }
}

/// The byte strings that are written for a repo hold the bytes of every operation, as long as
/// their names tell them apart.
pub proof fn law_written_blobs_hold(state: Repo)
    requires
        storable(state),
        names_distinguish(state),
    ensures
        blobs_hold(state, encode::repo_blobs(state)),
{
    let paths = text_map::listing(state.files.dom());
    let blobs = encode::repo_blobs(state);
    text_map::lemma_listing_exists(state.files.dom());
    assert forall|i: int| 0 <= i < paths.len() implies state.files.contains_key(#[trigger] paths[i]) by {
        assert(paths.contains(paths[i]));
    }
    lemma_files_blobs(state, paths);
    assert forall|p: Seq<char>, l: Seq<char>|
        state.files.contains_key(p) && #[trigger] state.files[p].lanes.contains_key(
            l,
        ) implies blobs_hold_entry(state.files[p].lanes[l], blobs) by {
        assert(paths.contains(p) <==> state.files.dom().contains(p));
        let k = choose|k: int| 0 <= k < paths.len() && paths[k] == p;
        assert(state.files[paths[k]].lanes.contains_key(l));
        let entry = state.files[p].lanes[l];
        assert(has_entry(entry, blobs));
        match entry {
            Entry::Present(list) => {
                assert forall|i: int| 0 <= i < list.len() implies blobs.contains_key(
                    values::blob_name((#[trigger] list[i]).inserted),
                ) && blobs[values::blob_name(list[i].inserted)] == list[i].inserted by {
                    let name = values::blob_name(list[i].inserted);
                    assert(blobs.contains_key(name));
                    assert(inserted_at(state, p, l, i, list[i].inserted));
                    assert(values::blob_name(blobs[name]) == name);
                }
            },
            Entry::Deleted => {},
        }
    }
}

} // verus!
