//! What a command wrote, by path. Paths that differ in case alone are one path: the newest entry
//! counts.
use vstd::prelude::*;

use crate::text;
use crate::text::{chars_of, eq_ignore_ascii_case, rsplit_once, split, text_between};
use crate::text_map;
use crate::text_map::TextMap;
use crate::vfs::DirEntryKind;

verus! {

/// What a command left at a path.
#[derive(Debug, PartialEq, Eq)]
pub enum DirtyEntry {
    File(Vec<u8>),
    Directory,
    Deleted,
}

/// A [`DirtyEntry`] as a mathematical value.
pub enum DirtyEntryView {
    File(Seq<u8>),
    Directory,
    Deleted,
}

impl View for DirtyEntry {
    type V = DirtyEntryView;

    open spec fn view(&self) -> DirtyEntryView {
        match self {
            DirtyEntry::File(bytes) => DirtyEntryView::File(bytes@),
            DirtyEntry::Directory => DirtyEntryView::Directory,
            DirtyEntry::Deleted => DirtyEntryView::Deleted,
        }
    }
}

impl DirtyEntry {
    /// A copy of the entry.
    pub fn copy(&self) -> (r: Self)
        ensures
            r@ == self@,
    {
        match self {
            DirtyEntry::File(bytes) => DirtyEntry::File(
                vstd::slice::slice_to_vec(bytes.as_slice()),
            ),
            DirtyEntry::Directory => DirtyEntry::Directory,
            DirtyEntry::Deleted => DirtyEntry::Deleted,
        }
    }
}

/// Entries as mathematical values.
pub open spec fn dirty_map(dirty: Map<Seq<char>, DirtyEntry>) -> Map<Seq<char>, DirtyEntryView> {
    dirty.map_values(|entry: DirtyEntry| entry@)
}

/// The version of a path; zero where it was never written.
pub open spec fn version_of(versions: Map<Seq<char>, u64>, path: Seq<char>) -> u64 {
    if versions.contains_key(path) {
        versions[path]
    } else {
        0
    }
}

/// The version of a path; zero where it was never written.
pub fn path_version(versions: &TextMap<u64>, path: &str) -> (r: u64)
    requires
        versions.wf(),
    ensures
        r == version_of(versions@, path@),
{
    match versions.get(path) {
        Some(version) => *version,
        None => 0,
    }
}

/// The newest of some paths that differ from a path in case alone. Among those of one version
/// the last counts.
pub open spec fn newest_key(
    keys: Seq<Seq<char>>,
    versions: Map<Seq<char>, u64>,
    path: Seq<char>,
) -> Option<Seq<char>>
    decreases keys.len(),
{
    if keys.len() == 0 {
        None
    } else {
        let before = newest_key(keys.drop_last(), versions, path);
        let key = keys.last();
        if !text::same_ignoring_ascii_case(key, path) {
            before
        } else {
            match before {
                None => Some(key),
                Some(other) => if version_of(versions, key) >= version_of(versions, other) {
                    Some(key)
                } else {
                    Some(other)
                },
            }
        }
    }
}

/// What a command left at a path.
pub open spec fn newest(
    dirty: Map<Seq<char>, DirtyEntryView>,
    versions: Map<Seq<char>, u64>,
    path: Seq<char>,
) -> Option<DirtyEntryView> {
    match newest_key(text_map::listing(dirty.dom()), versions, path) {
        Some(key) => Some(dirty[key]),
        None => None,
    }
}

/// What a command left at a path.
pub fn newest_dirty_entry_for_path<'a>(
    dirty: &'a TextMap<DirtyEntry>,
    versions: &TextMap<u64>,
    path: &str,
) -> (r: Option<&'a DirtyEntry>)
    requires
        dirty.wf(),
        versions.wf(),
    ensures
        (match r {
            Some(entry) => Some(entry@),
            None => None,
        }) == newest(dirty_map(dirty@), versions@, path@),
{
    let ghost keys = dirty.keys();
    let mut found: Option<usize> = None;
    let mut i: usize = 0;
    proof {
        dirty.lemma_wf();
        assert(dirty_map(dirty@).dom() =~= dirty@.dom());
        assert(keys.subrange(0, 0) =~= Seq::empty());
    }
    while i < dirty.len()
        invariant
            i <= dirty.pairs().len(),
            dirty.wf(),
            versions.wf(),
            keys == dirty.keys(),
            found matches Some(at) ==> at < i,
            (match found {
                Some(at) => Some(keys[at as int]),
                None => None,
            }) == newest_key(keys.subrange(0, i as int), versions@, path@),
        decreases dirty.pairs().len() - i,
    {
        let key = dirty.key_at(i);
        proof {
            assert(keys.subrange(0, i + 1).drop_last() =~= keys.subrange(0, i as int));
            assert(keys.subrange(0, i + 1).last() == key@);
        }
        if eq_ignore_ascii_case(key, path) {
            match found {
                None => {
                    found = Some(i);
                },
                Some(at) => {
                    if path_version(versions, key) >= path_version(versions, dirty.key_at(at)) {
                        found = Some(i);
                    }
                },
            }
        }
        i = i + 1;
    }
    proof {
        assert(keys.subrange(0, i as int) =~= keys);
        dirty.lemma_wf();
    }
    match found {
        None => None,
        Some(at) => {
            let entry = dirty.value_at(at);
            proof {
                assert(dirty@.contains_key(dirty.pairs()[at as int].0));
                assert(dirty_map(dirty@)[keys[at as int]] == entry@);
            }
            Some(entry)
        },
    }
}

/// Whether what a command left above a path hides it: the nearest entry above it is a file or a
/// deletion.
pub open spec fn hides(
    dirty: Map<Seq<char>, DirtyEntryView>,
    versions: Map<Seq<char>, u64>,
    path: Seq<char>,
) -> bool
    decreases path.len(),
{
    match text::split_last(path, '/') {
        None => false,
        Some((parent, _)) => if parent.len() >= path.len() {
            false
        } else {
            match newest(dirty, versions, parent) {
                Some(entry) => !(entry is Directory),
                None => hides(dirty, versions, parent),
            }
        },
    }
}

proof fn lemma_parent_is_shorter(path: Seq<char>, parent: Seq<char>, name: Seq<char>)
    requires
        text::split_last(path, '/') == Some((parent, name)),
    ensures
        parent.len() < path.len(),
{
    let i = choose|i: int| 0 <= i < path.len() && path[i] == '/';
    lemma_last_index(path, '/');
    let at = choose|at: int| text::is_last_index(path, '/', at);
    text::lemma_split_last(path, '/', at);
}

proof fn lemma_last_index(s: Seq<char>, c: char)
    requires
        s.contains(c),
    ensures
        exists|at: int| text::is_last_index(s, c, at),
    decreases s.len(),
{
    if s.last() == c {
        assert(text::is_last_index(s, c, s.len() - 1));
    } else {
        let rest = s.drop_last();
        let i = choose|i: int| 0 <= i < s.len() && s[i] == c;
        assert(rest[i] == c);
        lemma_last_index(rest, c);
        let at = choose|at: int| text::is_last_index(rest, c, at);
        assert(text::is_last_index(s, c, at)) by {
            assert forall|j: int| at < j < s.len() implies s[j] != c by {
                if j < rest.len() {
                    assert(rest[j] != c);
                }
            }
        }
    }
}

/// Whether what a command left above a path hides it.
pub fn dirty_ancestor_hides(
    dirty: &TextMap<DirtyEntry>,
    versions: &TextMap<u64>,
    path: &str,
) -> (r: bool)
    requires
        dirty.wf(),
        versions.wf(),
    ensures
        r == hides(dirty_map(dirty@), versions@, path@),
{
    let ghost shown = dirty_map(dirty@);
    let mut current: String = path.to_owned();
    loop
        invariant
            dirty.wf(),
            versions.wf(),
            shown == dirty_map(dirty@),
            hides(shown, versions@, path@) == hides(shown, versions@, current@),
        decreases current@.len(),
    {
        match rsplit_once(current.as_str(), '/') {
            None => {
                return false;
            },
            Some((parent, name)) => {
                proof {
                    lemma_parent_is_shorter(current@, parent@, name@);
                }
                match newest_dirty_entry_for_path(dirty, versions, parent.as_str()) {
                    Some(entry) => {
                        return match entry {
                            DirtyEntry::Directory => false,
                            _ => true,
                        };
                    },
                    None => {},
                }
                current = parent;
            },
        }
    }
}

/// What follows a directory in a path that lies below it.
pub open spec fn tail_below(path: Seq<char>, directory: Seq<char>) -> Option<Seq<char>> {
    if path.len() > directory.len() && path[directory.len() as int] == '/'
        && text::same_ignoring_ascii_case(path.subrange(0, directory.len() as int), directory) {
        Some(path.subrange(directory.len() as int + 1, path.len() as int))
    } else {
        None
    }
}

/// What follows a directory in a path that lies below it.
pub fn dirty_path_descendant_tail(path: &str, directory: &str) -> (r: Option<String>)
    ensures
        text::opt_text(r) == tail_below(path@, directory@),
{
    let chars = chars_of(path);
    let above = chars_of(directory);
    let n: usize = above.len();
    if chars.len() <= n || chars[n] != '/' {
        return None;
    }
    let prefix = text_between(&chars, 0, n);
    if eq_ignore_ascii_case(prefix.as_str(), directory) {
        Some(text_between(&chars, n + 1, chars.len()))
    } else {
        None
    }
}

/// Whether a path lies below a directory.
pub open spec fn is_below(path: Seq<char>, directory: Seq<char>) -> bool {
    if directory.len() == 0 {
        path.len() > 0
    } else {
        tail_below(path, directory) is Some
    }
}

/// Whether a path lies below a directory.
pub fn is_descendant_path(path: &str, directory: &str) -> (r: bool)
    ensures
        r == is_below(path@, directory@),
{
    if directory.is_empty() {
        return !path.is_empty();
    }
    dirty_path_descendant_tail(path, directory).is_some()
}

/// The name that a path below a directory gives to it, and whether the path ends there.
pub open spec fn entry_below(directory: Seq<char>, path: Seq<char>) -> Option<(Seq<char>, DirEntryKind)> {
    let tail = if directory.len() == 0 {
        Some(path)
    } else {
        tail_below(path, directory)
    };
    match tail {
        None => None,
        Some(tail) => if tail.len() == 0 {
            None
        } else {
            let parts = text::split_text(tail, '/');
            Some(
                (
                    parts[0],
                    if parts.len() > 1 {
                        DirEntryKind::Directory
                    } else {
                        DirEntryKind::File
                    },
                ),
            )
        },
    }
}

/// The name that a path below a directory gives to it, and whether the path ends there.
pub fn dir_entry_for_dirty_path(directory: &str, path: &str) -> (r: Option<(String, DirEntryKind)>)
    ensures
        (match r {
            Some((name, kind)) => Some((name@, kind)),
            None => None,
        }) == entry_below(directory@, path@),
{
    let tail: String = if directory.is_empty() {
        path.to_owned()
    } else {
        match dirty_path_descendant_tail(path, directory) {
            None => {
                return None;
            },
            Some(tail) => tail,
        }
    };
    if tail.as_str().is_empty() {
        return None;
    }
    let parts = split(tail.as_str(), '/');
    assert(text::texts(parts@)[0] == parts@[0]@);
    assert(text::texts(parts@).len() == parts@.len());
    let kind = if parts.len() > 1 {
        DirEntryKind::Directory
    } else {
        DirEntryKind::File
    };
    Some((parts[0].clone(), kind))
}

/// Whether a command left a file or a directory below a path.
pub open spec fn has_below(dirty: Map<Seq<char>, DirtyEntryView>, path: Seq<char>) -> bool {
    exists|p: Seq<char>| #[trigger]
        dirty.contains_key(p) && is_below(p, path) && !(dirty[p] is Deleted)
}

/// Whether a command left a file or a directory below a path.
pub fn dirty_has_visible_children(dirty: &TextMap<DirtyEntry>, path: &str) -> (r: bool)
    requires
        dirty.wf(),
    ensures
        r == has_below(dirty_map(dirty@), path@),
{
    let ghost shown = dirty_map(dirty@);
    let mut i: usize = 0;
    proof {
        dirty.lemma_wf();
    }
    while i < dirty.len()
        invariant
            i <= dirty.pairs().len(),
            dirty.wf(),
            shown == dirty_map(dirty@),
            forall|m: int|
                0 <= m < i ==> !(is_below((#[trigger] dirty.pairs()[m]).0, path@) && !(
                dirty.pairs()[m].1@ is Deleted)),
        decreases dirty.pairs().len() - i,
    {
        let visible = match dirty.value_at(i) {
            DirtyEntry::Deleted => false,
            _ => true,
        };
        if visible && is_descendant_path(dirty.key_at(i), path) {
            proof {
                dirty.lemma_wf();
                let p = dirty.pairs()[i as int].0;
                assert(dirty@.contains_key(p));
                assert(shown.contains_key(p));
            }
            return true;
        }
        i = i + 1;
    }
    proof {
        dirty.lemma_wf();
        if has_below(shown, path@) {
            let p = choose|p: Seq<char>| #[trigger]
                shown.contains_key(p) && is_below(p, path@) && !(shown[p] is Deleted);
            assert(dirty@.contains_key(p));
            let m = choose|m: int|
                0 <= m < dirty.pairs().len() && (#[trigger] dirty.pairs()[m]).0 == p;
            assert(is_below(dirty.pairs()[m].0, path@));
        }
    }
    false
}

} // verus!
