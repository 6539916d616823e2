//! What a lane reads once what a command wrote has been taken into it.
use vstd::prelude::*;

use crate::laws;
use crate::materialize::snapshot;
use crate::path_laws;
use crate::repo::Repo;
use crate::text;
use crate::text_map;
use crate::types;
use crate::vfs;
use crate::vfs::{Fs, LaneFsErrorView};
use crate::virtual_exec::dirty;
use crate::virtual_exec::dirty::DirtyEntryView;
use crate::virtual_exec::laws as view_laws;
use crate::virtual_exec::nodes;
use crate::virtual_exec::nodes::Status;
use crate::virtual_exec::session;
use crate::virtual_exec::session::MergedView;
use crate::virtual_exec::state;
use crate::virtual_exec::state::{Names, ViewState};
use crate::write_laws;

verus! {

/// Whether no later entry of a list has the path of one.
pub open spec fn has_last_word(list: Seq<(Seq<char>, DirtyEntryView)>, j: int) -> bool {
    forall|m: int|
        j < m < list.len() ==> vfs::repo_path((#[trigger] list[m]).0) != vfs::repo_path(list[j].0)
}

/// Whether some entry of a list has a path.
pub open spec fn has_path(list: Seq<(Seq<char>, DirtyEntryView)>, path: Seq<char>) -> bool {
    exists|j: int|
        0 <= j < list.len() && vfs::repo_path((#[trigger] list[j]).0) == vfs::repo_path(path)
}

/// A lane reads what entries left: at the path of a file its bytes, at any other path of an entry
/// nothing. At every other path it reads what it read, and so does every other lane at every path.
/// Where entries share a path the last of them counts.
pub open spec fn reads_what_was_left(
    before: Fs,
    after: Fs,
    lane: Seq<char>,
    list: Seq<(Seq<char>, DirtyEntryView)>,
) -> bool {
    &&& forall|j: int|
        0 <= j < list.len() && has_last_word(list, j) ==> vfs::fs_read(
            after,
            lane,
            (#[trigger] list[j]).0,
        ) == Ok::<Option<Seq<u8>>, LaneFsErrorView>(
            match list[j].1 {
                DirtyEntryView::File(bytes) => Some(bytes),
                DirtyEntryView::Deleted => None,
                DirtyEntryView::Directory => None,
            },
        )
    &&& forall|j: int| 0 <= j < list.len() ==> vfs::repo_path((#[trigger] list[j]).0) is Ok
    &&& forall|path: Seq<char>|
        !has_path(list, path) ==> #[trigger] vfs::fs_read(after, lane, path) == vfs::fs_read(
            before,
            lane,
            path,
        )
    &&& forall|k: Seq<char>, path: Seq<char>|
        k != lane ==> #[trigger] vfs::fs_read(after, k, path) == vfs::fs_read(before, k, path)
    &&& after.files == before.files
}

/// Giving a lane content at a path changes nothing of what is read elsewhere.
pub proof fn lemma_replacing_is_local(
    fs: Fs,
    lane: Seq<char>,
    here: Seq<char>,
    content: Option<Seq<u8>>,
    k: Seq<char>,
    path: Seq<char>,
)
    requires
        vfs::fs_replace(fs, lane, here, content) is Ok,
        k != lane || vfs::repo_path(path) != vfs::repo_path(here),
    ensures
        vfs::fs_read(vfs::fs_replace(fs, lane, here, content)->Ok_0, k, path) == vfs::fs_read(
            fs,
            k,
            path,
        ),
{
    if let Ok(other) = vfs::repo_path(path) {
        let at = vfs::repo_path(here)->Ok_0;
        laws::law_lanes_are_isolated(
            fs.repo,
            at,
            lane,
            vfs::base_at(fs.files, at),
            content,
            other,
            k,
            vfs::base_at(fs.files, other),
        );
    }
}

/// One more entry is left at its path.
pub proof fn lemma_one_more(
    before: Fs,
    now: Fs,
    after: Fs,
    lane: Seq<char>,
    list: Seq<(Seq<char>, DirtyEntryView)>,
    entry: (Seq<char>, DirtyEntryView),
)
    requires
        reads_what_was_left(before, now, lane, list),
        after == now || exists|content: Option<Seq<u8>>| #[trigger]
            vfs::fs_replace(now, lane, entry.0, content) == Ok::<Fs, LaneFsErrorView>(after),
        vfs::fs_read(after, lane, entry.0) == Ok::<Option<Seq<u8>>, LaneFsErrorView>(
            match entry.1 {
                DirtyEntryView::File(bytes) => Some(bytes),
                DirtyEntryView::Deleted => None,
                DirtyEntryView::Directory => None,
            },
        ),
    ensures
        reads_what_was_left(before, after, lane, list.push(entry)),
{
    let longer = list.push(entry);
    assert forall|k: Seq<char>, path: Seq<char>|
        k != lane || vfs::repo_path(path) != vfs::repo_path(entry.0) implies #[trigger] vfs::fs_read(
        after,
        k,
        path,
    ) == vfs::fs_read(now, k, path) by {
        if after != now {
            let content = choose|content: Option<Seq<u8>>| #[trigger]
                vfs::fs_replace(now, lane, entry.0, content) == Ok::<Fs, LaneFsErrorView>(after);
            lemma_replacing_is_local(now, lane, entry.0, content, k, path);
        }
    }
    assert forall|j: int| 0 <= j < longer.len() && has_last_word(longer, j) implies vfs::fs_read(
        after,
        lane,
        (#[trigger] longer[j]).0,
    ) == Ok::<Option<Seq<u8>>, LaneFsErrorView>(
        match longer[j].1 {
            DirtyEntryView::File(bytes) => Some(bytes),
            DirtyEntryView::Deleted => None,
            DirtyEntryView::Directory => None,
        },
    ) by {
        if j < list.len() {
            assert(longer[list.len() as int] == entry);
            assert(vfs::repo_path(longer[list.len() as int].0) != vfs::repo_path(longer[j].0));
            assert(longer[j] == list[j]);
            assert(has_last_word(list, j)) by {
                assert forall|m: int| j < m < list.len() implies vfs::repo_path((
                #[trigger] list[m]).0) != vfs::repo_path(list[j].0) by {
                    assert(longer[m] == list[m]);
                }
            }
        }
    }
    assert forall|path: Seq<char>| !has_path(longer, path) implies #[trigger] vfs::fs_read(
        after,
        lane,
        path,
    ) == vfs::fs_read(before, lane, path) by {
        assert(longer[list.len() as int] == entry);
        assert(vfs::repo_path(longer[list.len() as int].0) != vfs::repo_path(path));
        assert(!has_path(list, path)) by {
            if has_path(list, path) {
                let j = choose|j: int|
                    0 <= j < list.len() && vfs::repo_path((#[trigger] list[j]).0)
                        == vfs::repo_path(path);
                assert(longer[j] == list[j]);
            }
        }
        assert(vfs::fs_read(after, lane, path) == vfs::fs_read(now, lane, path));
    }
}

// Which entry counts at a path.

/// Lower-case forms agree exactly where two texts differ in case alone.
pub proof fn lemma_lower(a: Seq<char>, b: Seq<char>)
    ensures
        text::lower_text(a) == text::lower_text(b) <==> text::same_ignoring_ascii_case(a, b),
{
    if text::lower_text(a) == text::lower_text(b) {
        assert(text::lower_text(a).len() == text::lower_text(b).len());
        assert forall|i: int| 0 <= i < a.len() implies text::ascii_lower(#[trigger] a[i])
            == text::ascii_lower(b[i]) by {
            assert(text::lower_text(a)[i] == text::lower_text(b)[i]);
        }
    }
    if text::same_ignoring_ascii_case(a, b) {
        assert(text::lower_text(a) =~= text::lower_text(b));
    }
}

/// The lower-case form of where a path stands in a lane.
pub open spec fn place(fs: Fs, lane: Seq<char>, disk: Map<Seq<char>, Names>, key: Seq<char>) -> Seq<
    char,
> {
    text::lower_text(session::canonical_path(fs, lane, disk, key)->Ok_0)
}

/// Whether a path is the newest of those that stand at its place.
pub open spec fn is_newest_there(
    fs: Fs,
    lane: Seq<char>,
    disk: Map<Seq<char>, Names>,
    versions: Map<Seq<char>, u64>,
    keys: Set<Seq<char>>,
    key: Seq<char>,
) -> bool {
    &&& keys.contains(key)
    &&& forall|other: Seq<char>| #[trigger]
        keys.contains(other) && other != key && place(fs, lane, disk, other) == place(
            fs,
            lane,
            disk,
            key,
        ) ==> view_laws::newer(versions, key, other)
}

/// Whether a merged entry is that of the newest path at its place.
pub open spec fn merged_from(
    fs: Fs,
    lane: Seq<char>,
    disk: Map<Seq<char>, Names>,
    dirty: Map<Seq<char>, DirtyEntryView>,
    versions: Map<Seq<char>, u64>,
    keys: Set<Seq<char>>,
    found: MergedView,
    key: Seq<char>,
) -> bool {
    &&& is_newest_there(fs, lane, disk, versions, keys, key)
    &&& session::canonical_path(fs, lane, disk, key) == Ok::<Seq<char>, Status>(found.path)
    &&& found.entry == dirty[key]
    &&& found.version == dirty::version_of(versions, key)
}

/// Merging keeps for each place the entry of the newest path there.
proof fn lemma_merged(
    fs: Fs,
    lane: Seq<char>,
    disk: Map<Seq<char>, Names>,
    dirty: Map<Seq<char>, DirtyEntryView>,
    versions: Map<Seq<char>, u64>,
    keys: Seq<Seq<char>>,
)
    requires
        text_map::sorted_texts(keys),
        session::merged(fs, lane, disk, dirty, versions, keys) is Ok,
    ensures
        ({
            let map = session::merged(fs, lane, disk, dirty, versions, keys)->Ok_0;
            &&& map.dom().finite()
            &&& forall|low: Seq<char>| #[trigger]
                map.contains_key(low) ==> text::lower_text(map[low].path) == low && exists|
                    key: Seq<char>,
                | #[trigger]
                    merged_from(
                        fs,
                        lane,
                        disk,
                        dirty,
                        versions,
                        keys.to_set(),
                        map[low],
                        key,
                    )
            &&& forall|key: Seq<char>| #[trigger]
                keys.contains(key) ==> session::canonical_path(fs, lane, disk, key) is Ok
                    && map.contains_key(place(fs, lane, disk, key))
        }),
    decreases keys.len(),
{
    let map = session::merged(fs, lane, disk, dirty, versions, keys)->Ok_0;
    if keys.len() > 0 {
        let rest = keys.drop_last();
        let last = keys.last();
        assert(text_map::sorted_texts(rest)) by {
            assert forall|i: int, j: int| 0 <= i < j < rest.len() implies text::text_lt(
                #[trigger] rest[i],
                #[trigger] rest[j],
            ) by {
                assert(text::text_lt(keys[i], keys[j]));
            }
        }
        lemma_merged(fs, lane, disk, dirty, versions, rest);
        let before = session::merged(fs, lane, disk, dirty, versions, rest)->Ok_0;
        assert forall|k: Seq<char>| #[trigger] keys.contains(k) <==> rest.contains(k) || k == last by {
            if keys.contains(k) {
                let i = choose|i: int| 0 <= i < keys.len() && keys[i] == k;
                if i < rest.len() {
                    assert(rest[i] == k);
                }
            }
            if rest.contains(k) {
                let i = choose|i: int| 0 <= i < rest.len() && rest[i] == k;
                assert(keys[i] == k);
            }
            assert(keys[keys.len() - 1] == last);
        }
        assert forall|k: Seq<char>| #[trigger] rest.contains(k) implies text::text_lt(k, last) by {
            let i = choose|i: int| 0 <= i < rest.len() && rest[i] == k;
            assert(text::text_lt(keys[i], keys[keys.len() - 1]));
        }
        let path = session::canonical_path(fs, lane, disk, last)->Ok_0;
        let at = text::lower_text(path);
        let mine = MergedView {
            version: dirty::version_of(versions, last),
            path,
            entry: dirty[last],
        };
        assert(map == session::with_merged(before, mine));
        assert forall|low: Seq<char>| #[trigger] map.contains_key(low) implies text::lower_text(
            map[low].path,
        ) == low && exists|key: Seq<char>| #[trigger]
            merged_from(fs, lane, disk, dirty, versions, keys.to_set(), map[low], key) by {
            let kept = low != at || (before.contains_key(at) && before[at].version > mine.version);
            if kept {
                assert(before.contains_key(low) && before[low] == map[low]);
                let key = choose|key: Seq<char>| #[trigger]
                    merged_from(fs, lane, disk, dirty, versions, rest.to_set(), before[low], key);
                assert(rest.contains(key));
                assert(merged_from(fs, lane, disk, dirty, versions, keys.to_set(), map[low], key))
                    by {
                    assert forall|other: Seq<char>| #[trigger]
                        keys.to_set().contains(other) && other != key && place(
                            fs,
                            lane,
                            disk,
                            other,
                        ) == place(fs, lane, disk, key) implies view_laws::newer(versions, key, other) by {
                        assert(keys.contains(other));
                        if rest.contains(other) {
                            assert(rest.to_set().contains(other));
                        }
                    }
                }
            } else {
                assert(map[low] == mine);
                assert(merged_from(fs, lane, disk, dirty, versions, keys.to_set(), map[low], last))
                    by {
                    assert forall|other: Seq<char>| #[trigger]
                        keys.to_set().contains(other) && other != last && place(
                            fs,
                            lane,
                            disk,
                            other,
                        ) == place(fs, lane, disk, last) implies view_laws::newer(versions, last, other) by {
                        assert(keys.contains(other));
                        assert(rest.contains(other));
                        assert(before.contains_key(at));
                        let key = choose|key: Seq<char>| #[trigger]
                            merged_from(
                                fs,
                                lane,
                                disk,
                                dirty,
                                versions,
                                rest.to_set(),
                                before[at],
                                key,
                            );
                        assert(rest.to_set().contains(other));
                        if other != key {
                            assert(view_laws::newer(versions, key, other));
                        }
                    }
                }
            }
        }
        assert forall|key: Seq<char>| #[trigger] keys.contains(
            key,
        ) implies session::canonical_path(fs, lane, disk, key) is Ok && map.contains_key(
            place(fs, lane, disk, key),
        ) by {
            if key != last {
                assert(rest.contains(key));
                assert(before.contains_key(place(fs, lane, disk, key)));
            }
        }
    }
}

/// Whether an entry is that of the newest path at its place.
pub open spec fn taken_from(
    fs: Fs,
    disk: Map<Seq<char>, Names>,
    view: ViewState,
    entry: (Seq<char>, DirtyEntryView),
    key: Seq<char>,
) -> bool {
    &&& is_newest_there(fs, view.lane, disk, view.versions, view.dirty.dom(), key)
    &&& session::canonical_path(fs, view.lane, disk, key) == Ok::<Seq<char>, Status>(entry.0)
    &&& entry.1 == view.dirty[key]
}

/// Whether an entry is that of the newest of some paths of the command.
pub open spec fn is_newest_entry(
    fs: Fs,
    disk: Map<Seq<char>, Names>,
    view: ViewState,
    entry: (Seq<char>, DirtyEntryView),
) -> bool {
    exists|key: Seq<char>| #[trigger] taken_from(fs, disk, view, entry, key)
}

/// What is taken into a lane: for each place at which the command wrote the entry of the newest
/// path there, and nothing else.
pub open spec fn newest_at_each_place(
    fs: Fs,
    disk: Map<Seq<char>, Names>,
    view: ViewState,
    list: Seq<(Seq<char>, DirtyEntryView)>,
) -> bool {
    &&& forall|key: Seq<char>| #[trigger]
        view.dirty.contains_key(key) ==> session::canonical_path(
            fs,
            view.lane,
            disk,
            key,
        ) is Ok && exists|j: int|
            0 <= j < list.len() && text::lower_text((#[trigger] list[j]).0) == place(
                fs,
                view.lane,
                disk,
                key,
            )
    &&& forall|j: int|
        0 <= j < list.len() ==> is_newest_entry(fs, disk, view, #[trigger] list[j])
    &&& forall|i: int, j: int|
        0 <= i < j < list.len() ==> text::lower_text((#[trigger] list[i]).0) != text::lower_text(
            (#[trigger] list[j]).0,
        )
}

/// At each place at which the command wrote, the entry of the newest path there is taken.
pub proof fn law_newest_entry_is_taken(fs: Fs, disk: Map<Seq<char>, Names>, view: ViewState)
    requires
        view.dirty.dom().finite(),
        session::canonical_entries(fs, disk, view) is Ok,
    ensures
        newest_at_each_place(
            fs,
            disk,
            view,
            session::canonical_entries(fs, disk, view)->Ok_0,
        ),
{
    let keys = text_map::listing(view.dirty.dom());
    text_map::lemma_listing_exists(view.dirty.dom());
    lemma_merged(fs, view.lane, disk, view.dirty, view.versions, keys);
    let map = session::merged(fs, view.lane, disk, view.dirty, view.versions, keys)->Ok_0;
    let lows = text_map::listing(map.dom());
    text_map::lemma_listing_exists(map.dom());
    let list = session::canonical_entries(fs, disk, view)->Ok_0;
    assert(keys.to_set() =~= view.dirty.dom()) by {
        assert forall|k: Seq<char>| keys.to_set().contains(k) <==> view.dirty.dom().contains(k) by {
            assert(keys.contains(k) <==> view.dirty.dom().contains(k));
        }
    }
    assert forall|j: int| 0 <= j < list.len() implies list[j] == (map[lows[j]].path, map[lows[j]].entry)
        && map.contains_key(#[trigger] lows[j]) && text::lower_text(list[j].0) == lows[j] by {
        assert(lows.contains(lows[j]));
        assert(map.dom().contains(lows[j]));
    }
    assert forall|key: Seq<char>| #[trigger] view.dirty.contains_key(
        key,
    ) implies session::canonical_path(fs, view.lane, disk, key) is Ok && exists|j: int|
        0 <= j < list.len() && text::lower_text((#[trigger] list[j]).0) == place(
            fs,
            view.lane,
            disk,
            key,
        ) by {
        assert(keys.contains(key));
        let low = place(fs, view.lane, disk, key);
        assert(map.contains_key(low));
        assert(lows.contains(low));
        let j = choose|j: int| 0 <= j < lows.len() && lows[j] == low;
        assert(text::lower_text(list[j].0) == lows[j]);
    }
    assert forall|j: int| 0 <= j < list.len() implies is_newest_entry(
        fs,
        disk,
        view,
        #[trigger] list[j],
    ) by {
        let low = lows[j];
        assert(map.contains_key(low));
        let key = choose|key: Seq<char>| #[trigger]
            merged_from(
                fs,
                view.lane,
                disk,
                view.dirty,
                view.versions,
                keys.to_set(),
                map[low],
                key,
            );
        assert(taken_from(fs, disk, view, list[j], key));
    }
    assert forall|i: int, j: int| 0 <= i < j < list.len() implies text::lower_text((
    #[trigger] list[i]).0) != text::lower_text((#[trigger] list[j]).0) by {
        assert(text::lower_text(list[i].0) == lows[i]);
        assert(text::lower_text(list[j].0) == lows[j]);
        assert(text::text_lt(lows[i], lows[j]));
        text::lemma_text_lt_irreflexive(lows[i]);
    }
}

// Where a path stands in a lane.

/// A character that is no ASCII letter is the lower-case form of itself alone.
proof fn lemma_lower_of(x: char, c: char)
    requires
        text::ascii_lower(x) == c,
        !('a' <= c <= 'z'),
    ensures
        x == c,
{
}

/// A part that differs from a plain one in case alone is plain.
proof fn lemma_plain_in_any_case(a: Seq<char>, b: Seq<char>)
    requires
        text::same_ignoring_ascii_case(a, b),
        path_laws::plain_part(b),
    ensures
        path_laws::plain_part(a),
{
    assert forall|c: char| !('a' <= c <= 'z') && !('A' <= c <= 'Z') && #[trigger] a.contains(
        c,
    ) implies b.contains(c) by {
        let i = choose|i: int| 0 <= i < a.len() && a[i] == c;
        assert(text::ascii_lower(a[i]) == c);
        lemma_lower_of(b[i], c);
        assert(b[i] == c);
    }
    reveal_strlit(".");
    reveal_strlit("..");
    if a == "."@ {
        assert(text::ascii_lower(a[0]) == '.');
        lemma_lower_of(b[0], '.');
        assert(b =~= "."@);
    }
    if a == ".."@ {
        assert(text::ascii_lower(a[0]) == '.');
        assert(text::ascii_lower(a[1]) == '.');
        lemma_lower_of(b[0], '.');
        lemma_lower_of(b[1], '.');
        assert(b =~= ".."@);
    }
}

/// A name that matches differs from the part in case alone.
proof fn lemma_match_is_same(names: Seq<Seq<char>>, part: Seq<char>)
    ensures
        session::first_match(names, part) matches Some(name) ==> text::same_ignoring_ascii_case(
            name,
            part,
        ),
    decreases names.len(),
{
    if names.len() > 0 {
        lemma_match_is_same(names.drop_last(), part);
    }
}

/// A plain part stands in a view as it is.
proof fn lemma_plain_label(part: Seq<char>)
    requires
        path_laws::plain_part(part),
    ensures
        nodes::view_label(part) == part,
{
    assert(part.contains(part[0]));
    assert forall|i: int| 0 <= i < part.len() implies part[i] != '\\' by {
        assert(part.contains(part[i]));
    }
    assert(text::with_char_replaced(part, '\\', '/') =~= part);
}

/// Parts of a path in the case in which a lane has them.
proof fn lemma_canonical_names(
    fs: Fs,
    lane: Seq<char>,
    disk: Map<Seq<char>, Names>,
    parts: Seq<Seq<char>>,
) -> (found: Seq<Seq<char>>)
    requires
        session::canonical_parts(fs, lane, disk, parts) is Ok,
        forall|i: int| 0 <= i < parts.len() ==> path_laws::plain_part(#[trigger] parts[i]),
    ensures
        found.len() == parts.len(),
        forall|i: int|
            0 <= i < parts.len() ==> path_laws::plain_part(#[trigger] found[i])
                && text::same_ignoring_ascii_case(found[i], parts[i]),
        session::canonical_parts(fs, lane, disk, parts)->Ok_0 == text::join_texts(found, "/"@),
        parts.len() > 0 ==> session::canonical_parts(fs, lane, disk, parts)->Ok_0.len() > 0,
    decreases parts.len(),
{
    if parts.len() == 0 {
        Seq::empty()
    } else {
        let rest = parts.drop_last();
        assert forall|i: int| 0 <= i < rest.len() implies path_laws::plain_part(
            #[trigger] rest[i],
        ) by {
            assert(rest[i] == parts[i]);
        }
        let before = lemma_canonical_names(fs, lane, disk, rest);
        let above = session::canonical_parts(fs, lane, disk, rest)->Ok_0;
        let kinds = vfs::fs_list_dir(fs, lane, above, state::names_on_disk(disk, above))->Ok_0;
        let part = parts.last();
        let names = text_map::listing(kinds.dom());
        lemma_match_is_same(names, part);
        let name = match session::first_match(names, part) {
            Some(name) => name,
            None => part,
        };
        assert(path_laws::plain_part(parts[parts.len() - 1]));
        lemma_plain_in_any_case(name, part);
        lemma_plain_label(name);
        let found = before.push(name);
        assert(found.drop_last() =~= before);
        assert forall|i: int| 0 <= i < parts.len() implies path_laws::plain_part(
            #[trigger] found[i],
        ) && text::same_ignoring_ascii_case(found[i], parts[i]) by {
            if i < rest.len() {
                assert(rest[i] == parts[i]);
                assert(path_laws::plain_part(before[i]));
            }
        }
        found
    }
}

/// Joining parts that differ in case alone gives texts that do.
proof fn lemma_join_in_any_case(a: Seq<Seq<char>>, b: Seq<Seq<char>>)
    requires
        a.len() == b.len(),
        forall|i: int|
            0 <= i < a.len() ==> text::same_ignoring_ascii_case(#[trigger] a[i], b[i]),
    ensures
        text::same_ignoring_ascii_case(
            text::join_texts(a, "/"@),
            text::join_texts(b, "/"@),
        ),
    decreases a.len(),
{
    if a.len() == 1 {
        assert(text::same_ignoring_ascii_case(a[0], b[0]));
    } else if a.len() > 1 {
        let x = a.drop_last();
        let y = b.drop_last();
        assert forall|i: int| 0 <= i < x.len() implies text::same_ignoring_ascii_case(
            #[trigger] x[i],
            y[i],
        ) by {
            assert(x[i] == a[i]);
        }
        lemma_join_in_any_case(x, y);
        assert(text::same_ignoring_ascii_case(a[a.len() - 1], b[b.len() - 1]));
        let one = text::join_texts(a, "/"@);
        let two = text::join_texts(b, "/"@);
        let n = text::join_texts(x, "/"@).len();
        let m = "/"@.len();
        assert forall|i: int| 0 <= i < one.len() implies text::ascii_lower(#[trigger] one[i])
            == text::ascii_lower(two[i]) by {
            if i < n {
                assert(text::ascii_lower(text::join_texts(x, "/"@)[i]) == text::ascii_lower(
                    text::join_texts(y, "/"@)[i],
                ));
            } else if i >= n + m {
                assert(text::ascii_lower(a.last()[i - n - m]) == text::ascii_lower(
                    b.last()[i - n - m],
                ));
            }
        }
    }
}

/// A path in normal form stands in a lane at a path that differs from it in case alone, and that is
/// in normal form unless it names nothing.
pub proof fn law_path_keeps_its_letters(
    fs: Fs,
    lane: Seq<char>,
    disk: Map<Seq<char>, Names>,
    key: Seq<char>,
)
    requires
        vfs::repo_path(key) == Ok::<Seq<char>, LaneFsErrorView>(key),
        session::canonical_path(fs, lane, disk, key) is Ok,
    ensures
        ({
            let path = session::canonical_path(fs, lane, disk, key)->Ok_0;
            &&& text::same_ignoring_ascii_case(path, key)
            &&& vfs::repo_path(path) is Ok ==> vfs::repo_path(path) == Ok::<
                Seq<char>,
                LaneFsErrorView,
            >(path)
        }),
{
    path_laws::lemma_label_parts(key, key);
    let named = |part: Seq<char>| part.len() > 0;
    let keep = |part: Seq<char>| types::naming_part(part);
    let parts = types::raw_parts(key).filter(keep);
    assert forall|i: int| 0 <= i < parts.len() implies named(#[trigger] parts[i]) by {
        assert(path_laws::plain_part(parts[i]));
    }
    path_laws::lemma_filter_kept(parts, named);
    assert(snapshot::named_parts(key) == parts);
    let found = lemma_canonical_names(fs, lane, disk, parts);
    let path = session::canonical_path(fs, lane, disk, key)->Ok_0;
    lemma_join_in_any_case(found, parts);
    reveal_strlit("/");
    assert("/"@ =~= seq!['/']);
    assert forall|i: int| 0 <= i < found.len() implies !(#[trigger] found[i]).contains('/')
        && !found[i].contains('\\') && keep(found[i]) by {
        assert(path_laws::plain_part(found[i]));
    }
    path_laws::lemma_split_join(found, '/');
    path_laws::lemma_joined_chars(found, '\\');
    assert(text::with_char_replaced(path, '\\', '/') =~= path) by {
        assert forall|i: int| 0 <= i < path.len() implies path[i] != '\\' by {
            assert(path.contains(path[i]));
        }
    }
    assert(types::raw_parts(path) == found);
    path_laws::lemma_filter_kept(found, keep);
    assert(types::joined_label(path) == path);
}

// All of it together.

/// What a lane reads once what a command wrote in a view of it was taken: where the newest entry of
/// the command left a file, the bytes that the view showed there, and where it left none, nothing.
/// At each path at which the command wrote nothing the lane reads what it read before, and so does
/// every other lane at every path.
pub open spec fn captured(
    before: Fs,
    after: Fs,
    disk: Map<Seq<char>, Names>,
    view: ViewState,
) -> bool {
    let there = Fs {
        repo: Repo { lanes: before.repo.lanes.insert(view.lane), ..before.repo },
        ..before
    };
    &&& forall|key: Seq<char>| #[trigger]
        view_laws::is_newest(view.dirty.dom(), view.versions, key, key) ==> {
            let path = session::canonical_path(there, view.lane, disk, key)->Ok_0;
            &&& text::same_ignoring_ascii_case(path, key)
            &&& vfs::fs_read(after, view.lane, path) == Ok::<Option<Seq<u8>>, LaneFsErrorView>(
                match state::file_at(view, key) {
                    Ok(bytes) => Some(bytes),
                    Err(_) => None,
                },
            )
            &&& view.dirty[key] matches DirtyEntryView::File(bytes) ==> state::file_at(view, key)
                == Ok::<Seq<u8>, Status>(bytes)
            &&& !(view.dirty[key] is File) ==> state::file_at(view, key) is Err
        }
    &&& forall|path: Seq<char>|
        (forall|key: Seq<char>| #[trigger]
            view.dirty.contains_key(key) ==> !(vfs::repo_path(path) is Ok
                && text::same_ignoring_ascii_case(vfs::repo_path(path)->Ok_0, key)))
            ==> #[trigger] vfs::fs_read(after, view.lane, path) == vfs::fs_read(
            there,
            view.lane,
            path,
        )
    &&& forall|k: Seq<char>, path: Seq<char>|
        k != view.lane ==> #[trigger] vfs::fs_read(after, k, path) == vfs::fs_read(before, k, path)
    &&& after.files == before.files
}

/// The paths at which a command wrote are in normal form.
pub open spec fn writes_normal_paths(view: ViewState) -> bool {
    forall|key: Seq<char>| #[trigger]
        view.dirty.contains_key(key) ==> vfs::repo_path(key) == Ok::<Seq<char>, LaneFsErrorView>(
            key,
        )
}

/// A lane that reads what the newest entries left has captured what the command wrote.
pub proof fn lemma_captured(before: Fs, after: Fs, disk: Map<Seq<char>, Names>, view: ViewState)
    requires
        view.dirty.dom().finite(),
        writes_normal_paths(view),
        ({
            let there = Fs {
                repo: Repo { lanes: before.repo.lanes.insert(view.lane), ..before.repo },
                ..before
            };
            &&& session::canonical_entries(there, disk, view) is Ok
            &&& reads_what_was_left(
                there,
                after,
                view.lane,
                session::canonical_entries(there, disk, view)->Ok_0,
            )
        }),
    ensures
        captured(before, after, disk, view),
{
    let there = Fs {
        repo: Repo { lanes: before.repo.lanes.insert(view.lane), ..before.repo },
        ..before
    };
    let lane = view.lane;
    let list = session::canonical_entries(there, disk, view)->Ok_0;
    law_newest_entry_is_taken(there, disk, view);
    assert forall|key: Seq<char>| #[trigger] view.dirty.contains_key(key) implies ({
        let path = session::canonical_path(there, lane, disk, key)->Ok_0;
        &&& text::same_ignoring_ascii_case(path, key)
        &&& place(there, lane, disk, key) == text::lower_text(key)
        &&& vfs::repo_path(path) is Ok ==> vfs::repo_path(path) == Ok::<
            Seq<char>,
            LaneFsErrorView,
        >(path)
    }) by {
        law_path_keeps_its_letters(there, lane, disk, key);
        lemma_lower(session::canonical_path(there, lane, disk, key)->Ok_0, key);
    }
    assert forall|j: int| 0 <= j < list.len() implies has_last_word(list, j) && vfs::repo_path(
        (#[trigger] list[j]).0,
    ) == Ok::<Seq<char>, LaneFsErrorView>(list[j].0) by {
        assert(is_newest_entry(there, disk, view, list[j]));
        let key = choose|key: Seq<char>| #[trigger] taken_from(there, disk, view, list[j], key);
        assert(view.dirty.contains_key(key));
        assert forall|m: int| j < m < list.len() implies vfs::repo_path((#[trigger] list[m]).0)
            != vfs::repo_path(list[j].0) by {
            assert(is_newest_entry(there, disk, view, list[m]));
            let other = choose|other: Seq<char>| #[trigger]
                taken_from(there, disk, view, list[m], other);
            assert(view.dirty.contains_key(other));
            assert(text::lower_text(list[j].0) != text::lower_text(list[m].0));
        }
    }
    assert forall|key: Seq<char>| #[trigger]
        view_laws::is_newest(view.dirty.dom(), view.versions, key, key) implies ({
        let path = session::canonical_path(there, lane, disk, key)->Ok_0;
        &&& text::same_ignoring_ascii_case(path, key)
        &&& vfs::fs_read(after, lane, path) == Ok::<Option<Seq<u8>>, LaneFsErrorView>(
            match state::file_at(view, key) {
                Ok(bytes) => Some(bytes),
                Err(_) => None,
            },
        )
        &&& view.dirty[key] matches DirtyEntryView::File(bytes) ==> state::file_at(view, key)
            == Ok::<Seq<u8>, Status>(bytes)
        &&& !(view.dirty[key] is File) ==> state::file_at(view, key) is Err
    }) by {
        assert(view.dirty.contains_key(key));
        let j = choose|j: int|
            0 <= j < list.len() && text::lower_text((#[trigger] list[j]).0) == place(
                there,
                lane,
                disk,
                key,
            );
        assert(is_newest_entry(there, disk, view, list[j]));
        let first = choose|first: Seq<char>| #[trigger]
            taken_from(there, disk, view, list[j], first);
        assert(view.dirty.contains_key(first));
        lemma_lower(first, key);
        assert(view_laws::is_newest(view.dirty.dom(), view.versions, key, first)) by {
            assert forall|other: Seq<char>| #[trigger]
                view.dirty.dom().contains(other) && text::same_ignoring_ascii_case(other, key)
                    && other != first implies view_laws::newer(view.versions, first, other) by {
                assert(view.dirty.contains_key(other));
                lemma_lower(other, key);
            }
        }
        view_laws::lemma_newest_is_one(view.dirty.dom(), view.versions, key, key, first);
        assert(has_last_word(list, j));
        view_laws::law_newest_entry_counts(view.dirty, view.versions, key);
        match dirty::newest(view.dirty, view.versions, key) {
            Some(found) => {
                let held = choose|held: Seq<char>| #[trigger]
                    view_laws::is_newest(view.dirty.dom(), view.versions, key, held) && found
                        == view.dirty[held];
                view_laws::lemma_newest_is_one(view.dirty.dom(), view.versions, key, key, held);
            },
            None => {},
        }
    }
    assert forall|path: Seq<char>|
        (forall|key: Seq<char>| #[trigger]
            view.dirty.contains_key(key) ==> !(vfs::repo_path(path) is Ok
                && text::same_ignoring_ascii_case(
                vfs::repo_path(path)->Ok_0,
                key,
            ))) implies #[trigger] vfs::fs_read(after, lane, path) == vfs::fs_read(
        there,
        lane,
        path,
    ) by {
        if has_path(list, path) {
            let j = choose|j: int|
                0 <= j < list.len() && vfs::repo_path((#[trigger] list[j]).0) == vfs::repo_path(
                    path,
                );
            assert(is_newest_entry(there, disk, view, list[j]));
            let key = choose|key: Seq<char>| #[trigger]
                taken_from(there, disk, view, list[j], key);
            assert(view.dirty.contains_key(key));
        }
    }
    assert forall|k: Seq<char>, path: Seq<char>| k != lane implies #[trigger] vfs::fs_read(
        after,
        k,
        path,
    ) == vfs::fs_read(before, k, path) by {
        assert(vfs::fs_read(after, k, path) == vfs::fs_read(there, k, path));
    }
}

/// The files that entries left can be told over the base files.
pub open spec fn entries_can_be_told(fs: Fs, list: Seq<(Seq<char>, DirtyEntryView)>) -> bool {
    forall|j: int, path: Seq<char>|
        0 <= j < list.len() ==> #[trigger] write_laws::can_be_told(
            vfs::base_at(fs.files, path),
            left_by((#[trigger] list[j]).1),
        )
}

/// The content that an entry leaves.
pub open spec fn left_by(entry: DirtyEntryView) -> Option<Seq<u8>> {
    match entry {
        DirtyEntryView::File(bytes) => Some(bytes),
        DirtyEntryView::Deleted => None,
        DirtyEntryView::Directory => None,
    }
}

/// Taking entries into a lane makes it read what they left.
proof fn lemma_entries_are_left(
    fs: Fs,
    lane: Seq<char>,
    list: Seq<(Seq<char>, DirtyEntryView)>,
)
    requires
        lane != "base"@,
        entries_can_be_told(fs, list),
        session::apply_entries(fs, lane, list).1 is None,
    ensures
        reads_what_was_left(fs, session::apply_entries(fs, lane, list).0, lane, list),
    decreases list.len(),
{
    if list.len() > 0 {
        let rest = list.drop_last();
        let entry = list.last();
        assert forall|j: int, path: Seq<char>|
            0 <= j < rest.len() implies #[trigger] write_laws::can_be_told(
            vfs::base_at(fs.files, path),
            left_by((#[trigger] rest[j]).1),
        ) by {
            assert(rest[j] == list[j]);
        }
        lemma_entries_are_left(fs, lane, rest);
        let now = session::apply_entries(fs, lane, rest).0;
        let after = session::apply_entries(fs, lane, list).0;
        assert(list[list.len() - 1] == entry);
        let content = left_by(entry.1);
        if vfs::fs_replace(now, lane, entry.0, content) == Ok::<Fs, LaneFsErrorView>(after) {
            let path = vfs::repo_path(entry.0)->Ok_0;
            assert(write_laws::can_be_told(vfs::base_at(fs.files, path), content));
            write_laws::law_written_content_is_read_back(
                now.repo,
                path,
                lane,
                vfs::base_at(now.files, path),
                content,
            );
        }
        lemma_one_more(fs, now, after, lane, rest, entry);
        assert(rest.push(entry) =~= list);
    }
}

/// When what a command wrote in a view of a lane is taken into the lane, the lane captures it: it
/// reads the bytes that the view showed wherever the command left a file, nothing where it deleted
/// one, and what it read before everywhere else. Other lanes read what they read before.
pub proof fn law_flush_captures_what_the_command_wrote(
    before: Fs,
    disk: Map<Seq<char>, Names>,
    view: ViewState,
)
    requires
        view.dirty.dom().finite(),
        view.dirty.dom() != Set::<Seq<char>>::empty(),
        writes_normal_paths(view),
        forall|key: Seq<char>, path: Seq<char>|
            view.dirty.contains_key(key) ==> write_laws::can_be_told(
                #[trigger] vfs::base_at(before.files, path),
                left_by(#[trigger] view.dirty[key]),
            ),
        session::flushed(before, disk, view).1 is None,
    ensures
        captured(before, session::flushed(before, disk, view).0, disk, view),
{
    let there = Fs {
        repo: Repo { lanes: before.repo.lanes.insert(view.lane), ..before.repo },
        ..before
    };
    assert(there.repo.lanes.insert(view.lane) =~= there.repo.lanes);
    let list = session::canonical_entries(there, disk, view)->Ok_0;
    let after = session::flushed(before, disk, view).0;
    law_newest_entry_is_taken(there, disk, view);
    assert forall|j: int, path: Seq<char>|
        0 <= j < list.len() implies #[trigger] write_laws::can_be_told(
        vfs::base_at(there.files, path),
        left_by((#[trigger] list[j]).1),
    ) by {
        assert(is_newest_entry(there, disk, view, list[j]));
        let key = choose|key: Seq<char>| #[trigger] taken_from(there, disk, view, list[j], key);
        assert(view.dirty.contains_key(key));
        assert(vfs::base_at(before.files, path) == vfs::base_at(there.files, path));
        assert(list[j].1 == view.dirty[key]);
    }
    lemma_entries_are_left(there, view.lane, list);
    lemma_captured(before, after, disk, view);
}

/// The changes that are reported of a view are those that its lane has once what the command wrote
/// was taken into it.
pub proof fn law_reported_changes_are_those_of_the_lane(disk: Map<Seq<char>, Names>, view: ViewState)
    requires
        view.fs.repo.lanes.contains(view.lane),
        view.dirty.dom() != Set::<Seq<char>>::empty(),
        session::flushed(view.fs, disk, view).1 is None,
        session::all_changes(session::flushed(view.fs, disk, view).0, view.lane) is Ok,
    ensures
        session::changes_with(view, disk) == Ok::<Seq<vfs::ChangeView>, Seq<char>>(
            session::all_changes(session::flushed(view.fs, disk, view).0, view.lane)->Ok_0,
        ),
{
    assert(view.fs.repo.lanes.insert(view.lane) =~= view.fs.repo.lanes);
}

} // verus!
