//! What holds of changes that a command makes in a view.
use vstd::prelude::*;

use crate::path_laws;
use crate::text;
use crate::text_map;
use crate::vfs;
use crate::vfs::DirEntryKind;
use crate::vfs_laws;
use crate::virtual_exec::dirty;
use crate::virtual_exec::dirty::DirtyEntryView;
use crate::virtual_exec::edit;
use crate::virtual_exec::edit::WriteMode;
use crate::virtual_exec::handles;
use crate::virtual_exec::laws;
use crate::virtual_exec::nodes;
use crate::virtual_exec::nodes::{NodeView, Status};
use crate::virtual_exec::state;
use crate::virtual_exec::state::{Names, ViewState};

verus! {

/// Where a write begins.
pub open spec fn begins_at(bytes: Seq<u8>, mode: WriteMode) -> int {
    match mode {
        WriteMode::Normal(offset) => offset as int,
        WriteMode::Constrained(offset) => offset as int,
        WriteMode::ToEnd => bytes.len() as int,
    }
}

/// After a write a file holds the written bytes from the offset on, its own bytes everywhere else,
/// and zeros where there was nothing before the offset. It grows as far as the written bytes reach,
/// or only up to the offset where it must not grow.
pub open spec fn takes_its_range(
    bytes: Seq<u8>,
    buffer: Seq<u8>,
    mode: WriteMode,
    after: Seq<u8>,
) -> bool {
    let offset = begins_at(bytes, mode);
    let end = if mode is Constrained {
        offset
    } else {
        offset + buffer.len()
    };
    &&& after.len() == if end > bytes.len() { end } else { bytes.len() as int }
    &&& forall|i: int|
        0 <= i < after.len() ==> #[trigger] after[i] == if offset <= i < offset + buffer.len() {
            buffer[i - offset]
        } else if i < bytes.len() {
            bytes[i]
        } else {
            0u8
        }
}

/// A write takes its range and no more, and is refused only where the file would be too long.
pub proof fn law_write_takes_its_range(bytes: Seq<u8>, buffer: Seq<u8>, mode: WriteMode)
    requires
        bytes.len() <= usize::MAX,
        buffer.len() <= usize::MAX,
    ensures
        edit::written(bytes, buffer, mode) is Err <==> begins_at(bytes, mode) > usize::MAX || !(
        mode is Constrained) && begins_at(bytes, mode) + buffer.len() > usize::MAX,
        edit::written(bytes, buffer, mode) matches Ok(after) ==> takes_its_range(
            bytes,
            buffer,
            mode,
            after,
        ),
{
}

/// A new length cuts a file off or fills it up with zeros.
pub proof fn law_resizing_keeps_the_front(bytes: Seq<u8>, len: nat)
    ensures
        edit::resized(bytes, len).len() == len,
        forall|i: int|
            0 <= i < len ==> #[trigger] edit::resized(bytes, len)[i] == if i < bytes.len() {
                bytes[i]
            } else {
                0u8
            },
{
}

/// A part of a file is what stands at its offset, as far as the file goes.
pub proof fn law_part_is_read_where_it_stands(bytes: Seq<u8>, offset: nat, len: nat)
    ensures
        handles::part_of(bytes, offset, len).len() == if offset >= bytes.len() {
            0
        } else if offset + len <= bytes.len() {
            len as int
        } else {
            bytes.len() - offset
        },
        forall|i: int|
            0 <= i < handles::part_of(bytes, offset, len).len() ==> #[trigger] handles::part_of(
                bytes,
                offset,
                len,
            )[i] == bytes[offset + i],
{
}

/// After a write through a view the view shows the file with the written bytes in it, at a path at
/// which there was no file on top of nothing, and what the command left at other paths stays.
pub proof fn law_write_is_seen(
    view: ViewState,
    path: Seq<char>,
    buffer: Seq<u8>,
    mode: WriteMode,
    other: Seq<char>,
)
    requires
        laws::versions_ok(view),
        path.len() > 0,
        buffer.len() <= usize::MAX,
        state::file_at(view, path) matches Ok(bytes) ==> bytes.len() <= usize::MAX,
        edit::after_write(view, path, edit::written_at(view, path, buffer, mode)) is Ok,
        !text::same_ignoring_ascii_case(path, other),
    ensures
        ({
            let (after, len, version) = edit::after_write(
                view,
                path,
                edit::written_at(view, path, buffer, mode),
            )->Ok_0;
            let old = match state::file_at(view, path) {
                Ok(bytes) => bytes,
                Err(_) => Seq::empty(),
            };
            &&& state::file_at(after, path) is Ok
            &&& takes_its_range(old, buffer, mode, state::file_at(after, path)->Ok_0)
            &&& len == state::file_at(after, path)->Ok_0.len()
            &&& version == dirty::version_of(after.versions, path)
            &&& dirty::newest(after.dirty, after.versions, other) == dirty::newest(
                view.dirty,
                view.versions,
                other,
            )
        }),
{
    let bytes = edit::written_at(view, path, buffer, mode)->Ok_0;
    laws::law_written_file_is_read_back(view, Map::empty(), path, bytes);
    laws::law_entries_are_separate(view, path, DirtyEntryView::File(bytes), other);
    law_write_takes_its_range(edit::file_for_write(view, path)->Ok_0, buffer, mode);
}

/// A renamed file is shown under its new name, and no longer under the old one unless they differ
/// in case alone. What the command left at other paths stays.
pub proof fn law_rename_moves_the_file(
    view: ViewState,
    disk: Map<Seq<char>, Names>,
    from: Seq<char>,
    to: Seq<char>,
    replace: bool,
    other: Seq<char>,
)
    requires
        laws::versions_ok(view),
        view.next_version < u64::MAX - 2,
        from.len() > 0,
        to.len() > 0,
        from != to,
        !text::same_ignoring_ascii_case(from, other),
        !text::same_ignoring_ascii_case(to, other),
        edit::renamed_file(view, disk, from, to, replace) is Ok,
    ensures
        ({
            let after = edit::renamed_file(view, disk, from, to, replace)->Ok_0.0;
            &&& state::file_at(view, from) is Ok
            &&& state::file_at(after, to) == state::file_at(view, from)
            &&& !text::same_ignoring_ascii_case(from, to) ==> state::file_at(after, from) == Err::<
                Seq<u8>,
                Status,
            >(Status::NoSuchFile)
            &&& !replace && !text::same_ignoring_ascii_case(from, to) ==> state::node_at(
                view,
                disk,
                to,
            ) == Ok::<Option<NodeView>, Status>(None)
            &&& dirty::newest(after.dirty, after.versions, other) == dirty::newest(
                view.dirty,
                view.versions,
                other,
            )
        }),
{
    let bytes = state::file_at(view, from)->Ok_0;
    let moved = state::with_entry(view, to, DirtyEntryView::File(bytes));
    laws::lemma_entry_is_newest(view, to, DirtyEntryView::File(bytes));
    laws::law_entries_are_separate(view, to, DirtyEntryView::File(bytes), other);
    if !text::same_ignoring_ascii_case(from, to) {
        laws::law_versions_stay_in_order(view, to, DirtyEntryView::File(bytes));
        lemma_deletion_is_seen(moved, from);
        laws::law_entries_are_separate(moved, from, DirtyEntryView::Deleted, other);
        laws::law_entries_are_separate(moved, from, DirtyEntryView::Deleted, to);
    }
}

/// A path that was deleted counts as deleted.
proof fn lemma_deletion_is_seen(view: ViewState, path: Seq<char>)
    requires
        laws::versions_ok(view),
        path.len() > 0,
    ensures
        ({
            let after = state::with_entry(view, path, DirtyEntryView::Deleted);
            dirty::newest(after.dirty, after.versions, path) == Some(DirtyEntryView::Deleted)
        }),
{
    laws::lemma_entry_is_newest(view, path, DirtyEntryView::Deleted);
}

/// What the newest entries of paths that differ in case alone say is one.
proof fn lemma_case_does_not_matter(view: ViewState, a: Seq<char>, b: Seq<char>)
    requires
        view.dirty.dom().finite(),
        text::same_ignoring_ascii_case(a, b),
    ensures
        dirty::newest(view.dirty, view.versions, a) == dirty::newest(view.dirty, view.versions, b),
{
    laws::law_newest_entry_counts(view.dirty, view.versions, a);
    laws::law_newest_entry_counts(view.dirty, view.versions, b);
    match dirty::newest(view.dirty, view.versions, a) {
        Some(found) => {
            let key = choose|key: Seq<char>| #[trigger]
                laws::is_newest(view.dirty.dom(), view.versions, a, key) && found
                    == view.dirty[key];
            assert(laws::is_newest(view.dirty.dom(), view.versions, b, key)) by {
                assert forall|other: Seq<char>| #[trigger]
                    view.dirty.dom().contains(other) && text::same_ignoring_ascii_case(other, b)
                        && other != key implies laws::newer(view.versions, key, other) by {
                    assert(text::same_ignoring_ascii_case(other, a));
                }
            }
            match dirty::newest(view.dirty, view.versions, b) {
                Some(now) => {
                    let held = choose|held: Seq<char>| #[trigger]
                        laws::is_newest(view.dirty.dom(), view.versions, b, held) && now
                            == view.dirty[held];
                    laws::lemma_newest_is_one(view.dirty.dom(), view.versions, b, key, held);
                },
                None => {
                    assert(view.dirty.contains_key(key));
                },
            }
        },
        None => {
            match dirty::newest(view.dirty, view.versions, b) {
                Some(now) => {
                    let held = choose|held: Seq<char>| #[trigger]
                        laws::is_newest(view.dirty.dom(), view.versions, b, held) && now
                            == view.dirty[held];
                    assert(view.dirty.contains_key(held));
                    assert(text::same_ignoring_ascii_case(held, a));
                },
                None => {},
            }
        },
    }
}

/// Paths that were deleted one after the other are all deleted, and what the command left at paths
/// that differ from all of them stays.
proof fn lemma_all_deleted(view: ViewState, paths: Seq<Seq<char>>)
    requires
        laws::versions_ok(view),
        view.next_version + paths.len() < u64::MAX,
        forall|i: int| 0 <= i < paths.len() ==> (#[trigger] paths[i]).len() > 0,
    ensures
        ({
            let after = edit::with_deleted(view, paths);
            &&& laws::versions_ok(after)
            &&& after.next_version == view.next_version + paths.len()
            &&& after.fs == view.fs && after.lane == view.lane
            &&& forall|i: int|
                0 <= i < paths.len() ==> dirty::newest(
                    after.dirty,
                    after.versions,
                    #[trigger] paths[i],
                ) == Some(DirtyEntryView::Deleted)
            &&& forall|other: Seq<char>|
                (forall|i: int|
                    0 <= i < paths.len() ==> !text::same_ignoring_ascii_case(
                        #[trigger] paths[i],
                        other,
                    )) ==> #[trigger] dirty::newest(after.dirty, after.versions, other)
                    == dirty::newest(view.dirty, view.versions, other)
        }),
    decreases paths.len(),
{
    if paths.len() > 0 {
        let rest = paths.drop_last();
        let last = paths.last();
        assert forall|i: int| 0 <= i < rest.len() implies (#[trigger] rest[i]).len() > 0 by {
            assert(rest[i] == paths[i]);
        }
        lemma_all_deleted(view, rest);
        let before = edit::with_deleted(view, rest);
        let after = edit::with_deleted(view, paths);
        laws::law_versions_stay_in_order(before, last, DirtyEntryView::Deleted);
        assert(paths[paths.len() - 1] == last);
        lemma_deletion_is_seen(before, last);
        assert forall|i: int| 0 <= i < paths.len() implies dirty::newest(
            after.dirty,
            after.versions,
            #[trigger] paths[i],
        ) == Some(DirtyEntryView::Deleted) by {
            if text::same_ignoring_ascii_case(last, paths[i]) {
                lemma_case_does_not_matter(after, paths[i], last);
            } else {
                assert(rest[i] == paths[i]);
                laws::law_entries_are_separate(before, last, DirtyEntryView::Deleted, paths[i]);
            }
        }
        assert forall|other: Seq<char>|
            (forall|i: int|
                0 <= i < paths.len() ==> !text::same_ignoring_ascii_case(
                    #[trigger] paths[i],
                    other,
                )) implies #[trigger] dirty::newest(after.dirty, after.versions, other)
            == dirty::newest(view.dirty, view.versions, other) by {
            assert forall|i: int| 0 <= i < rest.len() implies !text::same_ignoring_ascii_case(
                #[trigger] rest[i],
                other,
            ) by {
                assert(rest[i] == paths[i]);
            }
            laws::law_entries_are_separate(before, last, DirtyEntryView::Deleted, other);
        }
    }
}

/// The files in a directory of the lane are among those below it.
proof fn lemma_files_are_found(
    view: ViewState,
    disk: Map<Seq<char>, Names>,
    path: Seq<char>,
    limit: nat,
    kinds: Map<Seq<char>, DirEntryKind>,
    names: Seq<Seq<char>>,
    name: Seq<char>,
)
    requires
        edit::lane_files_of(view, disk, path, limit, kinds, names) is Ok,
        names.contains(name),
        kinds[name] is File,
    ensures
        edit::lane_files_of(view, disk, path, limit, kinds, names)->Ok_0.contains(
            nodes::view_child(path, name),
        ),
    decreases names.len(),
{
    let found = edit::lane_files_of(view, disk, path, limit, kinds, names)->Ok_0;
    let child = nodes::view_child(path, name);
    let rest = names.drop_last();
    let i = choose|i: int| 0 <= i < names.len() && names[i] == name;
    if names.last() == name {
        assert(found[found.len() - 1] == child);
    } else {
        assert(rest[i] == name);
        lemma_files_are_found(view, disk, path, limit, kinds, rest, name);
        let before = edit::lane_files_of(view, disk, path, limit, kinds, rest)->Ok_0;
        let j = choose|j: int| 0 <= j < before.len() && before[j] == child;
        assert(found[j] == child);
    }
}

/// A deleted directory shows nothing, nor does any file that the lane has in it, nor anything that
/// the command had left below it.
pub proof fn law_deleted_directory_shows_nothing(
    view: ViewState,
    disk: Map<Seq<char>, Names>,
    path: Seq<char>,
    name: Seq<char>,
    key: Seq<char>,
)
    requires
        laws::versions_ok(view),
        path.len() > 0,
        edit::deleted_dir(view, disk, path) is Ok,
        view.next_version + edit::lane_files(view, disk, path)->Ok_0.len()
            + text_map::listing(view.dirty.dom()).len() + 1 < u64::MAX,
        forall|i: int|
            0 <= i < edit::lane_files(view, disk, path)->Ok_0.len() ==> (
            #[trigger] edit::lane_files(view, disk, path)->Ok_0[i]).len() > 0,
    ensures
        ({
            let after = edit::deleted_dir(view, disk, path)->Ok_0;
            let names = state::lane_names(view, disk, path);
            &&& state::file_at(after, path) == Err::<Seq<u8>, Status>(Status::NoSuchFile)
            &&& state::node_at(after, disk, path) == Ok::<Option<NodeView>, Status>(None)
            &&& names is Ok
            &&& names->Ok_0.contains_key(name) && names->Ok_0[name] is File ==> state::file_at(
                after,
                nodes::view_child(path, name),
            ) == Err::<Seq<u8>, Status>(Status::NoSuchFile)
            &&& view.dirty.contains_key(key) && !(view.dirty[key] is Deleted) && text::begins_with(
                key,
                vfs::dir_prefix(path),
            ) ==> state::file_at(after, key) == Err::<Seq<u8>, Status>(Status::NoSuchFile)
        }),
{
    let after = edit::deleted_dir(view, disk, path)->Ok_0;
    let files = edit::lane_files(view, disk, path)->Ok_0;
    let keys = text_map::listing(view.dirty.dom());
    text_map::lemma_listing_exists(view.dirty.dom());
    let prefix = vfs::dir_prefix(path);
    let wanted = |k: Seq<char>| !(view.dirty[k] is Deleted) && text::begins_with(k, prefix);
    let touched = edit::touched_under(view.dirty, keys, prefix);
    assert(touched == keys.filter(wanted));
    keys.lemma_filter_len(wanted);
    let all = (files + touched).push(path);
    reveal_strlit("/");
    assert forall|i: int| 0 <= i < all.len() implies (#[trigger] all[i]).len() > 0 by {
        if i < files.len() {
            assert(all[i] == files[i]);
        } else if i < files.len() + touched.len() {
            assert(all[i] == touched[i - files.len()]);
            keys.lemma_filter_pred(wanted, i - files.len());
        }
    }
    lemma_all_deleted(view, all);
    assert(all[all.len() - 1] == path);
    let names = state::lane_names(view, disk, path);
    if names->Ok_0.contains_key(name) && names->Ok_0[name] is File {
        let kinds = names->Ok_0;
        vfs_laws::lemma_names_are_finite(
            view.fs,
            view.lane,
            path,
            state::names_on_disk(disk, path),
        );
        text_map::lemma_listing_exists(kinds.dom());
        assert(text_map::listing(kinds.dom()).contains(name));
        lemma_files_are_found(
            view,
            disk,
            path,
            edit::limit_below(view, disk, path),
            kinds,
            text_map::listing(kinds.dom()),
            name,
        );
        let child = nodes::view_child(path, name);
        let i = choose|i: int| 0 <= i < files.len() && files[i] == child;
        assert(all[i] == child);
    }
    if view.dirty.contains_key(key) && wanted(key) {
        assert(keys.contains(key));
        let m = choose|m: int| 0 <= m < keys.len() && keys[m] == key;
        keys.lemma_filter_contains(wanted, m);
        assert(touched.contains(key));
        let i = choose|i: int| 0 <= i < touched.len() && touched[i] == key;
        assert(all[files.len() + i] == key);
    }
}

/// Files that can be moved with their directory one after the other: no two of their paths, old or
/// new, differ in case alone.
pub open spec fn move_apart(from: Seq<char>, to: Seq<char>, files: Seq<Seq<char>>) -> bool {
    &&& forall|i: int|
        0 <= i < files.len() ==> (#[trigger] files[i]).len() > 0 && edit::moved_path(
            from,
            to,
            files[i],
        ).len() > 0
    &&& forall|i: int, j: int|
        #![trigger files[i], files[j]]
        0 <= i < files.len() && 0 <= j < files.len() ==> !text::same_ignoring_ascii_case(
            edit::moved_path(from, to, files[i]),
            files[j],
        )
    &&& forall|i: int, j: int|
        #![trigger files[i], files[j]]
        0 <= i < files.len() && 0 <= j < files.len() && i != j ==> !text::same_ignoring_ascii_case(
            files[i],
            files[j],
        ) && !text::same_ignoring_ascii_case(
            edit::moved_path(from, to, files[i]),
            edit::moved_path(from, to, files[j]),
        )
}

/// A file was moved: what the view showed at the old path is left at the new one, and the old one
/// is deleted.
pub open spec fn was_moved(
    view: ViewState,
    after: ViewState,
    from: Seq<char>,
    to: Seq<char>,
    path: Seq<char>,
) -> bool {
    &&& dirty::newest(after.dirty, after.versions, path) == Some(DirtyEntryView::Deleted)
    &&& state::file_at(view, path) matches Ok(bytes) ==> dirty::newest(
        after.dirty,
        after.versions,
        edit::moved_path(from, to, path),
    ) == Some(DirtyEntryView::File(bytes))
}

/// Two paths are different ones, whatever the case of their letters, so that an entry at the one
/// says nothing of the other.
proof fn lemma_separate(
    view: ViewState,
    path: Seq<char>,
    entry: DirtyEntryView,
    other: Seq<char>,
)
    requires
        view.dirty.dom().finite(),
        !text::same_ignoring_ascii_case(other, path),
    ensures
        dirty::newest(
            state::with_entry(view, path, entry).dirty,
            state::with_entry(view, path, entry).versions,
            other,
        ) == dirty::newest(view.dirty, view.versions, other),
{
    assert(!text::same_ignoring_ascii_case(path, other));
    laws::law_entries_are_separate(view, path, entry, other);
}

/// Moving files one after the other moves each of them.
proof fn lemma_files_are_moved(
    view: ViewState,
    from: Seq<char>,
    to: Seq<char>,
    files: Seq<Seq<char>>,
)
    requires
        laws::versions_ok(view),
        view.next_version + 2 * files.len() < u64::MAX,
        move_apart(from, to, files),
        edit::moved_files(view, from, to, files).1 is None,
    ensures
        ({
            let after = edit::moved_files(view, from, to, files).0;
            &&& laws::versions_ok(after)
            &&& after.next_version == view.next_version + 2 * files.len()
            &&& after.fs == view.fs && after.lane == view.lane
            &&& forall|i: int|
                0 <= i < files.len() ==> was_moved(view, after, from, to, #[trigger] files[i])
            &&& forall|other: Seq<char>|
                (forall|i: int|
                    0 <= i < files.len() ==> !text::same_ignoring_ascii_case(
                        other,
                        #[trigger] files[i],
                    ) && !text::same_ignoring_ascii_case(
                        other,
                        edit::moved_path(from, to, files[i]),
                    )) ==> #[trigger] dirty::newest(after.dirty, after.versions, other)
                    == dirty::newest(view.dirty, view.versions, other)
        }),
    decreases files.len(),
{
    if files.len() > 0 {
        let rest = files.drop_last();
        let path = files.last();
        let n = files.len() - 1;
        let new = edit::moved_path(from, to, path);
        assert(files[n] == path);
        assert(move_apart(from, to, rest)) by {
            assert forall|i: int| 0 <= i < rest.len() implies (#[trigger] rest[i]).len() > 0
                && edit::moved_path(from, to, rest[i]).len() > 0 by {
                assert(rest[i] == files[i]);
            }
            assert forall|i: int, j: int|
                #![trigger rest[i], rest[j]]
                0 <= i < rest.len() && 0 <= j < rest.len() implies !text::same_ignoring_ascii_case(
                edit::moved_path(from, to, rest[i]),
                rest[j],
            ) && (i != j ==> !text::same_ignoring_ascii_case(rest[i], rest[j])
                && !text::same_ignoring_ascii_case(
                edit::moved_path(from, to, rest[i]),
                edit::moved_path(from, to, rest[j]),
            )) by {
                assert(rest[i] == files[i] && rest[j] == files[j]);
            }
        }
        lemma_files_are_moved(view, from, to, rest);
        let before = edit::moved_files(view, from, to, rest).0;
        let bytes = state::file_at(before, path)->Ok_0;
        let there = state::with_entry(before, new, DirtyEntryView::File(bytes));
        let after = edit::moved_files(view, from, to, files).0;
        assert(after == state::with_entry(there, path, DirtyEntryView::Deleted));
        laws::law_versions_stay_in_order(before, new, DirtyEntryView::File(bytes));
        laws::law_versions_stay_in_order(there, path, DirtyEntryView::Deleted);
        laws::lemma_entry_is_newest(before, new, DirtyEntryView::File(bytes));
        laws::lemma_entry_is_newest(there, path, DirtyEntryView::Deleted);
        assert(!text::same_ignoring_ascii_case(edit::moved_path(from, to, files[n]), files[n]));
        lemma_separate(there, path, DirtyEntryView::Deleted, new);
        assert forall|i: int| 0 <= i < rest.len() implies !text::same_ignoring_ascii_case(
            path,
            #[trigger] rest[i],
        ) && !text::same_ignoring_ascii_case(path, edit::moved_path(from, to, rest[i])) by {
            assert(rest[i] == files[i]);
            assert(!text::same_ignoring_ascii_case(files[n], files[i]));
            assert(!text::same_ignoring_ascii_case(edit::moved_path(from, to, files[i]), files[n]));
        }
        assert(dirty::newest(before.dirty, before.versions, path) == dirty::newest(
            view.dirty,
            view.versions,
            path,
        ));
        assert(was_moved(view, after, from, to, path));
        assert forall|i: int| 0 <= i < files.len() implies was_moved(
            view,
            after,
            from,
            to,
            #[trigger] files[i],
        ) by {
            if i < n {
                assert(rest[i] == files[i]);
                assert(was_moved(view, before, from, to, rest[i]));
                let moved = edit::moved_path(from, to, files[i]);
                assert(!text::same_ignoring_ascii_case(files[i], files[n]));
                assert(!text::same_ignoring_ascii_case(
                    edit::moved_path(from, to, files[n]),
                    files[i],
                ));
                assert(!text::same_ignoring_ascii_case(moved, files[n]));
                assert(!text::same_ignoring_ascii_case(moved, new));
                assert(!text::same_ignoring_ascii_case(files[i], new));
                lemma_separate(before, new, DirtyEntryView::File(bytes), files[i]);
                lemma_separate(there, path, DirtyEntryView::Deleted, files[i]);
                lemma_separate(before, new, DirtyEntryView::File(bytes), moved);
                lemma_separate(there, path, DirtyEntryView::Deleted, moved);
            }
        }
        assert forall|other: Seq<char>|
            (forall|i: int|
                0 <= i < files.len() ==> !text::same_ignoring_ascii_case(
                    other,
                    #[trigger] files[i],
                ) && !text::same_ignoring_ascii_case(
                    other,
                    edit::moved_path(from, to, files[i]),
                )) implies #[trigger] dirty::newest(after.dirty, after.versions, other)
            == dirty::newest(view.dirty, view.versions, other) by {
            assert(!text::same_ignoring_ascii_case(other, files[n]));
            assert forall|i: int| 0 <= i < rest.len() implies !text::same_ignoring_ascii_case(
                other,
                #[trigger] rest[i],
            ) && !text::same_ignoring_ascii_case(other, edit::moved_path(from, to, rest[i])) by {
                assert(rest[i] == files[i]);
            }
            lemma_separate(before, new, DirtyEntryView::File(bytes), other);
            lemma_separate(there, path, DirtyEntryView::Deleted, other);
        }
    }
}

/// A renamed directory takes its files along: each file that the view showed below the old name is
/// shown below the new one with the same bytes, and no longer below the old one.
pub proof fn law_rename_moves_the_directory(
    view: ViewState,
    disk: Map<Seq<char>, Names>,
    from: Seq<char>,
    to: Seq<char>,
    replace: bool,
    i: int,
)
    requires
        laws::versions_ok(view),
        from != to,
        from.len() > 0,
        to.len() > 0,
        edit::renamed_dir(view, disk, from, to, replace).1 is Ok,
        ({
            let files = edit::visible_files(view, disk, from)->Ok_0;
            let path = files[i];
            let moved = edit::moved_path(from, to, path);
            &&& 0 <= i < files.len()
            &&& view.next_version + 2 * files.len() + 2 < u64::MAX
            &&& move_apart(from, to, files)
            &&& !text::same_ignoring_ascii_case(from, to)
            &&& !text::same_ignoring_ascii_case(path, to)
            &&& !text::same_ignoring_ascii_case(path, from)
            &&& !text::same_ignoring_ascii_case(moved, to)
            &&& !text::same_ignoring_ascii_case(moved, from)
            &&& state::file_at(view, path) is Ok
        }),
    ensures
        ({
            let path = edit::visible_files(view, disk, from)->Ok_0[i];
            let after = edit::renamed_dir(view, disk, from, to, replace).0;
            &&& state::file_at(after, edit::moved_path(from, to, path)) == state::file_at(
                view,
                path,
            )
            &&& state::file_at(after, path) == Err::<Seq<u8>, Status>(Status::NoSuchFile)
            &&& state::node_at(after, disk, to) == Ok::<Option<NodeView>, Status>(
                Some(NodeView::Directory(to)),
            )
            &&& state::node_at(after, disk, from) == Ok::<Option<NodeView>, Status>(None)
        }),
{
    let files = edit::visible_files(view, disk, from)->Ok_0;
    let path = files[i];
    let new = edit::moved_path(from, to, path);
    lemma_files_are_moved(view, from, to, files);
    let moved = edit::moved_files(view, from, to, files).0;
    let there = state::with_entry(moved, to, DirtyEntryView::Directory);
    assert(was_moved(view, moved, from, to, files[i]));
    laws::law_versions_stay_in_order(moved, to, DirtyEntryView::Directory);
    laws::lemma_entry_is_newest(moved, to, DirtyEntryView::Directory);
    laws::lemma_entry_is_newest(there, from, DirtyEntryView::Deleted);
    lemma_separate(moved, to, DirtyEntryView::Directory, path);
    lemma_separate(moved, to, DirtyEntryView::Directory, new);
    lemma_separate(there, from, DirtyEntryView::Deleted, path);
    lemma_separate(there, from, DirtyEntryView::Deleted, new);
    assert(!text::same_ignoring_ascii_case(to, from));
    lemma_separate(there, from, DirtyEntryView::Deleted, to);
}

/// A created node is shown at once, and there was none before. A file is created empty.
pub proof fn law_created_node_is_shown(
    view: ViewState,
    disk: Map<Seq<char>, Names>,
    name: Seq<char>,
    directory: bool,
)
    requires
        laws::versions_ok(view),
        handles::created(view, disk, name, directory) is Ok,
    ensures
        ({
            let (after, handle, node) = handles::created(view, disk, name, directory)->Ok_0;
            &&& nodes::named_path(name) == Ok::<Seq<char>, Status>(handle.path)
            &&& state::node_at(view, disk, handle.path) == Ok::<Option<NodeView>, Status>(None)
            &&& state::node_at(after, disk, handle.path) == Ok::<Option<NodeView>, Status>(
                Some(node),
            )
            &&& node is Directory == directory
            &&& handle.is_dir == directory
            &&& !handle.delete_on_close
            &&& handle.version == dirty::version_of(after.versions, handle.path)
            &&& !directory ==> state::file_at(after, handle.path) == Ok::<Seq<u8>, Status>(
                Seq::empty(),
            )
        }),
{
    let path = nodes::named_path(name)->Ok_0;
    if directory {
        laws::lemma_entry_is_newest(view, path, DirtyEntryView::Directory);
    } else {
        laws::lemma_entry_is_newest(view, path, DirtyEntryView::File(Seq::empty()));
    }
}

/// A write through a handle keeps the handle at the version that it wrote, so that closing it does
/// not take what was written for something that another wrote.
pub proof fn law_handle_knows_what_it_wrote(
    view: ViewState,
    handle: handles::HandleView,
    bytes: Seq<u8>,
)
    requires
        laws::versions_ok(view),
        handle.path.len() > 0,
        handles::written_through(view, handle, Ok(bytes)) is Ok,
    ensures
        ({
            let (after, now, len) = handles::written_through(view, handle, Ok(bytes))->Ok_0;
            &&& state::file_at(after, handle.path) == Ok::<Seq<u8>, Status>(bytes)
            &&& len == bytes.len()
            &&& now.path == handle.path
            &&& now.is_dir == handle.is_dir
            &&& now.delete_on_close == handle.delete_on_close
            &&& now.version == dirty::version_of(after.versions, handle.path)
        }),
{
    laws::lemma_entry_is_newest(view, handle.path, DirtyEntryView::File(bytes));
}

/// Marking a file for deletion takes it out of the view at once and marks the handle at the version
/// of the deletion. Unmarking changes the mark alone.
pub proof fn law_marked_file_is_gone(
    view: ViewState,
    disk: Map<Seq<char>, Names>,
    handle: handles::HandleView,
    delete: bool,
)
    requires
        laws::versions_ok(view),
        handle.path.len() > 0,
        !handle.is_dir,
        !handles::immutable(handle.path),
    ensures
        ({
            let (after, now, fault) = handles::marked(view, disk, handle, delete);
            &&& fault is None
            &&& now.path == handle.path
            &&& now.delete_on_close == delete
            &&& delete ==> state::file_at(after, handle.path) == Err::<Seq<u8>, Status>(
                Status::NoSuchFile,
            ) && now.version == dirty::version_of(after.versions, handle.path)
            &&& !delete ==> after == view && now.version == handle.version
        }),
{
    laws::lemma_entry_is_newest(view, handle.path, DirtyEntryView::Deleted);
}

/// Closing a handle deletes the file exactly where that was asked for and nothing was written at its
/// path since. Otherwise it changes nothing.
pub proof fn law_closing_deletes_what_was_marked(
    view: ViewState,
    disk: Map<Seq<char>, Names>,
    handle: handles::HandleView,
    delete: bool,
)
    requires
        laws::versions_ok(view),
        handle.path.len() > 0,
        !handle.is_dir,
        !handles::immutable(handle.path),
    ensures
        ({
            let after = handles::cleaned(view, disk, handle, delete);
            if (delete || handle.delete_on_close) && handle.version == dirty::version_of(
                view.versions,
                handle.path,
            ) {
                &&& state::file_at(after, handle.path) == Err::<Seq<u8>, Status>(Status::NoSuchFile)
                &&& state::node_at(after, disk, handle.path) == Ok::<Option<NodeView>, Status>(None)
            } else {
                after == view
            }
        }),
{
    laws::lemma_entry_is_newest(view, handle.path, DirtyEntryView::Deleted);
}

/// Whether a path gives a directory a name, as its own or as that of a directory above it.
pub open spec fn gives_name(directory: Seq<char>, key: Seq<char>, name: Seq<char>) -> bool {
    match dirty::entry_below(directory, key) {
        Some((given, _)) => given == name,
        None => false,
    }
}

/// What a command left at the one path that gives a directory a name decides what it shows there.
proof fn lemma_touched_name(
    entries: Map<Seq<char>, NodeView>,
    path: Seq<char>,
    left: Map<Seq<char>, DirtyEntryView>,
    keys: Seq<Seq<char>>,
    key: Seq<char>,
    name: Seq<char>,
)
    requires
        dirty::entry_below(path, key) == Some((name, DirEntryKind::File)),
        forall|i: int|
            0 <= i < keys.len() && #[trigger] keys[i] != key ==> !gives_name(path, keys[i], name),
    ensures
        ({
            let shown = state::touched_nodes(entries, path, left, keys);
            if keys.contains(key) {
                match left[key] {
                    DirtyEntryView::File(bytes) => shown.contains_key(name) && shown[name]
                        == NodeView::File(key, bytes.len()),
                    DirtyEntryView::Directory => shown.contains_key(name) && shown[name]
                        == NodeView::Directory(key),
                    DirtyEntryView::Deleted => !shown.contains_key(name),
                }
            } else {
                shown.contains_key(name) == entries.contains_key(name) && (entries.contains_key(
                    name,
                ) ==> shown[name] == entries[name])
            }
        }),
    decreases keys.len(),
{
    if keys.len() > 0 {
        let rest = keys.drop_last();
        let last = keys.last();
        assert forall|i: int| 0 <= i < rest.len() && #[trigger] rest[i] != key implies !gives_name(
            path,
            rest[i],
            name,
        ) by {
            assert(rest[i] == keys[i]);
        }
        lemma_touched_name(entries, path, left, rest, key, name);
        assert(keys[keys.len() - 1] == last);
        if keys.contains(key) {
            let i = choose|i: int| 0 <= i < keys.len() && keys[i] == key;
            if i < rest.len() {
                assert(rest[i] == key);
            }
        }
        if rest.contains(key) {
            let i = choose|i: int| 0 <= i < rest.len() && rest[i] == key;
            assert(keys[i] == key);
        }
        if last != key {
            assert(!gives_name(path, last, name));
        }
    }
}

/// A directory of a view shows a file that the command left in it, with its length, and does not
/// show one that the command deleted, as long as no other path of the command gives the directory
/// the same name.
pub proof fn law_directory_shows_what_was_left(
    view: ViewState,
    disk: Map<Seq<char>, Names>,
    path: Seq<char>,
    name: Seq<char>,
)
    requires
        view.dirty.dom().finite(),
        path.len() > 0,
        name.len() > 0,
        !name.contains('/'),
        view.dirty.contains_key(path + "/"@ + name),
        forall|other: Seq<char>| #[trigger]
            view.dirty.contains_key(other) && other != path + "/"@ + name ==> !gives_name(
                path,
                other,
                name,
            ),
        state::dir_at(view, disk, path) is Ok,
    ensures
        ({
            let key = path + "/"@ + name;
            let shown = state::dir_at(view, disk, path)->Ok_0;
            match view.dirty[key] {
                DirtyEntryView::File(bytes) => shown.contains_key(name) && shown[name]
                    == NodeView::File(key, bytes.len()),
                DirtyEntryView::Directory => shown.contains_key(name) && shown[name]
                    == NodeView::Directory(key),
                DirtyEntryView::Deleted => !shown.contains_key(name),
            }
        }),
{
    reveal_strlit("/");
    let key = path + "/"@ + name;
    assert(key.subrange(0, path.len() as int) =~= path);
    assert(key[path.len() as int] == '/');
    assert(key.subrange(path.len() as int + 1, key.len() as int) =~= name);
    assert(text::same_ignoring_ascii_case(path, path));
    assert(dirty::tail_below(key, path) == Some(name));
    path_laws::lemma_split_join(seq![name], '/');
    assert(text::join_texts(seq![name], seq!['/']) == name);
    assert(dirty::entry_below(path, key) == Some((name, DirEntryKind::File)));
    let keys = text_map::listing(view.dirty.dom());
    text_map::lemma_listing_exists(view.dirty.dom());
    assert(keys.contains(key));
    assert forall|i: int| 0 <= i < keys.len() && #[trigger] keys[i] != key implies !gives_name(
        path,
        keys[i],
        name,
    ) by {
        assert(keys.contains(keys[i]));
        assert(view.dirty.contains_key(keys[i]));
    }
    let kinds = state::lane_names(view, disk, path)->Ok_0;
    let entries = state::listed_nodes(
        view.fs,
        view.lane,
        path,
        kinds,
        text_map::listing(kinds.dom()),
    )->Ok_0;
    lemma_touched_name(entries, path, view.dirty, keys, key, name);
}

} // verus!
