//! What holds of a mounted view.
use vstd::prelude::*;

use crate::text;
use crate::text_map;
use crate::virtual_exec::dirty;
use crate::virtual_exec::dirty::DirtyEntryView;
use crate::virtual_exec::nodes::{NodeView, Status};
use crate::virtual_exec::state;
use crate::virtual_exec::state::{Names, ViewState};

verus! {

/// Whether one path is newer than another. Of two of one version the later in order is.
pub open spec fn newer(versions: Map<Seq<char>, u64>, a: Seq<char>, b: Seq<char>) -> bool {
    dirty::version_of(versions, a) > dirty::version_of(versions, b) || (dirty::version_of(
        versions,
        a,
    ) == dirty::version_of(versions, b) && text::text_lt(b, a))
}

/// Whether a key is the newest of those that differ from a path in case alone.
pub open spec fn is_newest(
    keys: Set<Seq<char>>,
    versions: Map<Seq<char>, u64>,
    path: Seq<char>,
    key: Seq<char>,
) -> bool {
    &&& keys.contains(key)
    &&& text::same_ignoring_ascii_case(key, path)
    &&& forall|other: Seq<char>| #[trigger]
        keys.contains(other) && text::same_ignoring_ascii_case(other, path) && other != key
            ==> newer(versions, key, other)
}

proof fn lemma_newest_key(
    keys: Seq<Seq<char>>,
    versions: Map<Seq<char>, u64>,
    path: Seq<char>,
)
    requires
        text_map::sorted_texts(keys),
    ensures
        match dirty::newest_key(keys, versions, path) {
            Some(key) => is_newest(keys.to_set(), versions, path, key),
            None => forall|key: Seq<char>| #[trigger]
                keys.contains(key) ==> !text::same_ignoring_ascii_case(key, path),
        },
    decreases keys.len(),
{
    if keys.len() > 0 {
        let rest = keys.drop_last();
        let last = keys.last();
        assert(text_map::sorted_texts(rest)) by {
            assert forall|i: int, j: int| 0 <= i < j < rest.len() implies text::text_lt(
                #[trigger] rest[i],
                #[trigger] rest[j],
            ) by {
                assert(text::text_lt(keys[i], keys[j]));
            }
        }
        lemma_newest_key(rest, versions, path);
        assert forall|k: Seq<char>| #[trigger] keys.contains(k) <==> rest.contains(k) || k == last by {
            if keys.contains(k) {
                let i = choose|i: int| 0 <= i < keys.len() && keys[i] == k;
                if i < rest.len() {
                    assert(rest[i] == k);
                }
            }
            if rest.contains(k) {
                let i = choose|i: int| 0 <= i < rest.len() && rest[i] == k;
                assert(keys[i] == k);
            }
            assert(keys[keys.len() - 1] == last);
        }
        assert forall|k: Seq<char>| #[trigger] rest.contains(k) implies text::text_lt(k, last) by {
            let i = choose|i: int| 0 <= i < rest.len() && rest[i] == k;
            assert(text::text_lt(keys[i], keys[keys.len() - 1]));
        }
        let before = dirty::newest_key(rest, versions, path);
        match dirty::newest_key(keys, versions, path) {
            None => {},
            Some(key) => {
                assert forall|other: Seq<char>| #[trigger]
                    keys.to_set().contains(other) && text::same_ignoring_ascii_case(other, path)
                        && other != key implies newer(versions, key, other) by {
                    assert(keys.contains(other));
                    if other == last {
                        assert(before == Some(key));
                    } else {
                        assert(rest.contains(other));
                        assert(rest.to_set().contains(other));
                        if key == last {
                            if before is Some {
                                let held = before->Some_0;
                                assert(rest.to_set().contains(held));
                                if other != held {
                                    assert(newer(versions, held, other));
                                    assert(text::text_lt(other, last));
                                }
                            }
                        }
                    }
                }
            },
        }
    }
}

pub(crate) proof fn lemma_newest_is_one(
    keys: Set<Seq<char>>,
    versions: Map<Seq<char>, u64>,
    path: Seq<char>,
    a: Seq<char>,
    b: Seq<char>,
)
    requires
        is_newest(keys, versions, path, a),
        is_newest(keys, versions, path, b),
    ensures
        a == b,
{
    if a != b {
        assert(newer(versions, a, b));
        assert(newer(versions, b, a));
        text::lemma_text_lt_irreflexive(a);
        if text::text_lt(a, b) && text::text_lt(b, a) {
            text::lemma_text_lt_transitive(a, b, a);
        }
    }
}

/// What a command left at a path is what the newest of the entries that differ from it in case
/// alone says.
pub proof fn law_newest_entry_counts(
    entries: Map<Seq<char>, DirtyEntryView>,
    versions: Map<Seq<char>, u64>,
    path: Seq<char>,
)
    requires
        entries.dom().finite(),
    ensures
        match dirty::newest(entries, versions, path) {
            Some(entry) => exists|key: Seq<char>| #[trigger]
                is_newest(entries.dom(), versions, path, key) && entry == entries[key],
            None => forall|key: Seq<char>| #[trigger]
                entries.contains_key(key) ==> !text::same_ignoring_ascii_case(key, path),
        },
{
    let keys = text_map::listing(entries.dom());
    text_map::lemma_listing_exists(entries.dom());
    lemma_newest_key(keys, versions, path);
    assert forall|k: Seq<char>| keys.to_set().contains(k) <==> entries.dom().contains(k) by {
        assert(keys.contains(k) <==> entries.dom().contains(k));
    }
    assert(keys.to_set() =~= entries.dom());
    match dirty::newest_key(keys, versions, path) {
        Some(key) => {
            assert(is_newest(entries.dom(), versions, path, key));
        },
        None => {
            assert forall|key: Seq<char>| #[trigger] entries.contains_key(
                key,
            ) implies !text::same_ignoring_ascii_case(key, path) by {
                assert(keys.contains(key) <==> entries.dom().contains(key));
            }
        },
    }
}

/// Every version so far is older than the next, and there is a next after it.
pub open spec fn versions_ok(view: ViewState) -> bool {
    &&& view.dirty.dom().finite()
    &&& view.next_version < u64::MAX
    &&& forall|p: Seq<char>| #[trigger]
        view.versions.contains_key(p) ==> view.versions[p] < view.next_version
    &&& view.next_version > 0
}

pub(crate) proof fn lemma_entry_is_newest(view: ViewState, path: Seq<char>, entry: DirtyEntryView)
    requires
        versions_ok(view),
    ensures
        dirty::newest(
            state::with_entry(view, path, entry).dirty,
            state::with_entry(view, path, entry).versions,
            path,
        ) == Some(entry),
{
    let after = state::with_entry(view, path, entry);
    law_newest_entry_counts(after.dirty, after.versions, path);
    assert(after.dirty.contains_key(path));
    assert(text::same_ignoring_ascii_case(path, path));
    assert(is_newest(after.dirty.dom(), after.versions, path, path)) by {
        assert forall|other: Seq<char>| #[trigger]
            after.dirty.dom().contains(other) && text::same_ignoring_ascii_case(other, path)
                && other != path implies newer(after.versions, path, other) by {
            if view.versions.contains_key(other) {
                assert(after.versions[other] == view.versions[other]);
            }
        }
    }
    match dirty::newest(after.dirty, after.versions, path) {
        Some(found) => {
            let key = choose|key: Seq<char>| #[trigger]
                is_newest(after.dirty.dom(), after.versions, path, key) && found
                    == after.dirty[key];
            lemma_newest_is_one(after.dirty.dom(), after.versions, path, key, path);
        },
        None => {},
    }
}

/// What was written at a path is read back from it, whatever was there before in any case.
pub proof fn law_written_file_is_read_back(
    view: ViewState,
    disk: Map<Seq<char>, Names>,
    path: Seq<char>,
    bytes: Seq<u8>,
)
    requires
        versions_ok(view),
        path.len() > 0,
    ensures
        ({
            let after = state::with_entry(view, path, DirtyEntryView::File(bytes));
            &&& state::file_at(after, path) == Ok::<Seq<u8>, Status>(bytes)
            &&& state::node_at(after, disk, path) == Ok::<Option<NodeView>, Status>(
                Some(NodeView::File(path, bytes.len())),
            )
        }),
{
    lemma_entry_is_newest(view, path, DirtyEntryView::File(bytes));
}

/// A path that was deleted shows nothing, and nothing that the command did not touch shows below
/// it.
pub proof fn law_deleted_path_shows_nothing(
    view: ViewState,
    disk: Map<Seq<char>, Names>,
    path: Seq<char>,
    name: Seq<char>,
)
    requires
        versions_ok(view),
        path.len() > 0,
        !name.contains('/'),
    ensures
        ({
            let after = state::with_entry(view, path, DirtyEntryView::Deleted);
            let child = path + "/"@ + name;
            &&& state::file_at(after, path) == Err::<Seq<u8>, Status>(Status::NoSuchFile)
            &&& state::node_at(after, disk, path) == Ok::<Option<NodeView>, Status>(None)
            &&& dirty::newest(after.dirty, after.versions, child) is None ==> {
                &&& state::node_at(after, disk, child) == Ok::<Option<NodeView>, Status>(None)
                &&& state::file_at(after, child) == Err::<Seq<u8>, Status>(Status::NoSuchFile)
            }
        }),
{
    lemma_entry_is_newest(view, path, DirtyEntryView::Deleted);
    let after = state::with_entry(view, path, DirtyEntryView::Deleted);
    let child = path + "/"@ + name;
    reveal_strlit("/");
    assert(child[path.len() as int] == '/');
    assert(text::is_last_index(child, '/', path.len() as int)) by {
        assert forall|j: int| path.len() < j < child.len() implies child[j] != '/' by {
            assert(child[j] == name[j - path.len() - 1]);
        }
    }
    text::lemma_split_last(child, '/', path.len() as int);
    assert(child.contains('/'));
    assert(child.subrange(0, path.len() as int) =~= path);
    assert(dirty::hides(after.dirty, after.versions, child));
}

/// The versions stay in order, until the last one is used up.
pub proof fn law_versions_stay_in_order(view: ViewState, path: Seq<char>, entry: DirtyEntryView)
    requires
        versions_ok(view),
        view.next_version < u64::MAX - 1,
    ensures
        versions_ok(state::with_entry(view, path, entry)),
{
}

/// An entry at a path changes nothing of what the command left at another path.
pub proof fn law_entries_are_separate(
    view: ViewState,
    path: Seq<char>,
    entry: DirtyEntryView,
    other: Seq<char>,
)
    requires
        view.dirty.dom().finite(),
        !text::same_ignoring_ascii_case(path, other),
    ensures
        dirty::newest(
            state::with_entry(view, path, entry).dirty,
            state::with_entry(view, path, entry).versions,
            other,
        ) == dirty::newest(view.dirty, view.versions, other),
{
    let after = state::with_entry(view, path, entry);
    law_newest_entry_counts(view.dirty, view.versions, other);
    law_newest_entry_counts(after.dirty, after.versions, other);
    match dirty::newest(view.dirty, view.versions, other) {
        None => {
            match dirty::newest(after.dirty, after.versions, other) {
                None => {},
                Some(found) => {
                    let key = choose|key: Seq<char>| #[trigger]
                        is_newest(after.dirty.dom(), after.versions, other, key) && found
                            == after.dirty[key];
                    assert(view.dirty.contains_key(key));
                },
            }
        },
        Some(found) => {
            let key = choose|key: Seq<char>| #[trigger]
                is_newest(view.dirty.dom(), view.versions, other, key) && found
                    == view.dirty[key];
            assert(is_newest(after.dirty.dom(), after.versions, other, key)) by {
                assert forall|m: Seq<char>| #[trigger]
                    after.dirty.dom().contains(m) && text::same_ignoring_ascii_case(m, other) && m
                        != key implies newer(after.versions, key, m) by {
                    assert(view.dirty.dom().contains(m));
                    assert(newer(view.versions, key, m));
                }
            }
            match dirty::newest(after.dirty, after.versions, other) {
                None => {
                    assert(after.dirty.contains_key(key));
                },
                Some(now) => {
                    let held = choose|held: Seq<char>| #[trigger]
                        is_newest(after.dirty.dom(), after.versions, other, held) && now
                            == after.dirty[held];
                    lemma_newest_is_one(after.dirty.dom(), after.versions, other, key, held);
                },
            }
        },
    }
}

} // verus!
