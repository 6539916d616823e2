//! What holds of the file tree as lanes see it.
use vstd::prelude::*;

use crate::path_laws;
use crate::repo;
use crate::text;
use crate::types;
use crate::types::LaneErrorView;
use crate::vfs;
use crate::vfs::{DirEntryKind, Fs, LaneFsErrorView};

verus! {

/// A lane shows finitely many names of a directory of the base.
proof fn lemma_shown_are_finite(
    fs: Fs,
    lane: Seq<char>,
    directory: Seq<char>,
    disk: Seq<(Seq<char>, DirEntryKind)>,
)
    requires
        vfs::shown_entries(fs, lane, directory, disk) is Ok,
    ensures
        vfs::shown_entries(fs, lane, directory, disk)->Ok_0.dom().finite(),
    decreases disk.len(),
{
    if disk.len() > 0 {
        lemma_shown_are_finite(fs, lane, directory, disk.drop_last());
    }
}

/// Overlays add finitely many names.
proof fn lemma_overlaid_are_finite(
    fs: Fs,
    lane: Seq<char>,
    prefix: Seq<char>,
    paths: Seq<Seq<char>>,
    entries: Map<Seq<char>, DirEntryKind>,
)
    requires
        entries.dom().finite(),
        vfs::overlaid_entries(fs, lane, prefix, paths, entries) is Ok,
    ensures
        vfs::overlaid_entries(fs, lane, prefix, paths, entries)->Ok_0.dom().finite(),
    decreases paths.len(),
{
    if paths.len() > 0 {
        lemma_overlaid_are_finite(fs, lane, prefix, paths.drop_last(), entries);
    }
}

/// A directory shows finitely many names.
pub proof fn lemma_names_are_finite(
    fs: Fs,
    lane: Seq<char>,
    raw: Seq<char>,
    disk: Seq<(Seq<char>, DirEntryKind)>,
)
    requires
        vfs::fs_list_dir(fs, lane, raw, disk) is Ok,
    ensures
        vfs::fs_list_dir(fs, lane, raw, disk)->Ok_0.dom().finite(),
{
    let directory = types::normalized_label(raw)->Ok_0;
    lemma_shown_are_finite(fs, lane, directory, disk);
    lemma_overlaid_are_finite(
        fs,
        lane,
        vfs::dir_prefix(directory),
        repo::overlay_listing(fs.repo, lane),
        vfs::shown_entries(fs, lane, directory, disk)->Ok_0,
    );
}

/// A change tells both sides: it is there exactly where what the lane reads is not what the base
/// reads, it holds the bytes of both, and it is a creation where only the lane has the file, a
/// deletion where only the base has it, and a modification where both have it.
pub proof fn law_change_tells_both_sides(fs: Fs, lane: Seq<char>, raw: Seq<char>)
    ensures
        match (vfs::fs_read(fs, lane, raw), vfs::fs_read(fs, "base"@, raw)) {
            (Ok(seen), Ok(base)) => match vfs::fs_change(fs, lane, raw) {
                Ok(None) => seen == base,
                Ok(Some(change)) => {
                    &&& seen != base
                    &&& vfs::repo_path(raw) == Ok::<Seq<char>, LaneFsErrorView>(change.path)
                    &&& change.base_bytes == base
                    &&& change.lane_bytes == seen
                    &&& change.base_size is Some == base is Some
                    &&& base matches Some(bytes) ==> change.base_size == Some(bytes.len())
                    &&& change.lane_size is Some == seen is Some
                    &&& seen matches Some(bytes) ==> change.lane_size == Some(bytes.len())
                    &&& change.status is Created <==> base is None
                    &&& change.status is Deleted <==> seen is None
                    &&& change.status is Modified <==> base is Some && seen is Some
                    &&& repo::repo_change_ops(fs.repo, change.path, lane, base) == Ok::<
                        Seq<types::OpSummaryView>,
                        LaneErrorView,
                    >(change.ops)
                },
                Err(_) => false,
            },
            (Err(error), _) => vfs::fs_change(fs, lane, raw) == Err::<
                Option<vfs::ChangeView>,
                LaneFsErrorView,
            >(error),
            (Ok(_), Err(_)) => false,
        },
{
}

/// Whether a lane reads a file at a path.
pub open spec fn shows_file(fs: Fs, lane: Seq<char>, path: Seq<char>) -> bool {
    vfs::fs_read(fs, lane, path) matches Ok(Some(_))
}

/// The names that a lane shows of a directory of the base.
proof fn lemma_shown_names(
    fs: Fs,
    lane: Seq<char>,
    directory: Seq<char>,
    disk: Seq<(Seq<char>, DirEntryKind)>,
)
    requires
        vfs::shown_entries(fs, lane, directory, disk) is Ok,
    ensures
        ({
            let entries = vfs::shown_entries(fs, lane, directory, disk)->Ok_0;
            &&& forall|name: Seq<char>| #[trigger]
                entries.contains_key(name) && entries[name] is File ==> disk.contains(
                    (name, DirEntryKind::File),
                ) && shows_file(fs, lane, vfs::child_of(directory, name))
            &&& forall|name: Seq<char>|
                disk.contains((name, DirEntryKind::File)) && shows_file(
                    fs,
                    lane,
                    #[trigger] vfs::child_of(directory, name),
                ) ==> entries.contains_key(name)
        }),
    decreases disk.len(),
{
    let entries = vfs::shown_entries(fs, lane, directory, disk)->Ok_0;
    if disk.len() > 0 {
        let rest = disk.drop_last();
        lemma_shown_names(fs, lane, directory, rest);
        assert forall|pair: (Seq<char>, DirEntryKind)| #[trigger]
            disk.contains(pair) <==> rest.contains(pair) || pair == disk.last() by {
            if disk.contains(pair) {
                let i = choose|i: int| 0 <= i < disk.len() && disk[i] == pair;
                if i < rest.len() {
                    assert(rest[i] == pair);
                }
            }
            if rest.contains(pair) {
                let i = choose|i: int| 0 <= i < rest.len() && rest[i] == pair;
                assert(disk[i] == pair);
            }
            assert(disk[disk.len() - 1] == disk.last());
        }
        let before = vfs::shown_entries(fs, lane, directory, rest)->Ok_0;
        assert forall|name: Seq<char>|
            disk.contains((name, DirEntryKind::File)) && shows_file(
                fs,
                lane,
                #[trigger] vfs::child_of(directory, name),
            ) implies entries.contains_key(name) by {
            if rest.contains((name, DirEntryKind::File)) {
                assert(before.contains_key(name));
            }
        }
    }
}

/// The path that gives a directory the name of a file stands directly in it.
proof fn lemma_named_file(directory: Seq<char>, path: Seq<char>)
    requires
        vfs::named_by(vfs::dir_prefix(directory), path) matches Some((_, DirEntryKind::File)),
    ensures
        path == vfs::child_of(
            directory,
            (vfs::named_by(vfs::dir_prefix(directory), path)->0).0,
        ),
{
    let prefix = vfs::dir_prefix(directory);
    let tail = text::after_prefix(path, prefix)->0;
    let parts = text::split_text(tail, '/');
    text::lemma_split_text_nonempty(tail, '/');
    assert(parts.len() == 1);
    lemma_one_piece(tail);
    assert(path =~= prefix + tail);
    assert(path =~= vfs::child_of(directory, tail));
}

/// A text that is one piece has no slash, and the piece is the text.
proof fn lemma_one_piece(s: Seq<char>)
    requires
        text::split_text(s, '/').len() == 1,
    ensures
        text::split_text(s, '/')[0] == s,
    decreases s.len(),
{
    if s.len() > 0 {
        let front = s.drop_last();
        text::lemma_split_text_nonempty(front, '/');
        lemma_one_piece(front);
        assert(front.push(s.last()) =~= s);
    } else {
        assert(text::split_text(s, '/')[0] =~= s);
    }
}

/// The names of a directory with those that overlays add.
proof fn lemma_overlaid_names(
    fs: Fs,
    lane: Seq<char>,
    directory: Seq<char>,
    paths: Seq<Seq<char>>,
    entries: Map<Seq<char>, DirEntryKind>,
)
    requires
        vfs::overlaid_entries(fs, lane, vfs::dir_prefix(directory), paths, entries) is Ok,
    ensures
        ({
            let names = vfs::overlaid_entries(
                fs,
                lane,
                vfs::dir_prefix(directory),
                paths,
                entries,
            )->Ok_0;
            &&& forall|name: Seq<char>| #[trigger]
                names.contains_key(name) && names[name] is File ==> (entries.contains_key(name)
                    && entries[name] is File) || shows_file(
                    fs,
                    lane,
                    vfs::child_of(directory, name),
                )
            &&& forall|name: Seq<char>| #[trigger]
                entries.contains_key(name) ==> names.contains_key(name)
            &&& forall|i: int|
                0 <= i < paths.len() && shows_file(fs, lane, #[trigger] paths[i]) ==> (
                vfs::named_by(vfs::dir_prefix(directory), paths[i]) matches Some((name, _))
                    ==> names.contains_key(name))
        }),
    decreases paths.len(),
{
    if paths.len() > 0 {
        let rest = paths.drop_last();
        let prefix = vfs::dir_prefix(directory);
        lemma_overlaid_names(fs, lane, directory, rest, entries);
        let before = vfs::overlaid_entries(fs, lane, prefix, rest, entries)->Ok_0;
        let names = vfs::overlaid_entries(fs, lane, prefix, paths, entries)->Ok_0;
        if let Some((name, kind)) = vfs::named_by(prefix, paths.last()) {
            if kind is File {
                lemma_named_file(directory, paths.last());
            }
        }
        assert forall|i: int|
            0 <= i < paths.len() && shows_file(fs, lane, #[trigger] paths[i]) implies (
        vfs::named_by(prefix, paths[i]) matches Some((name, _)) ==> names.contains_key(name)) by {
            if i < rest.len() {
                assert(rest[i] == paths[i]);
            }
        }
    }
}

/// A directory lists a file exactly where the lane reads one. Every name that is listed as a file
/// is read, and every file that is read is listed, whether the base has it there or an overlay.
pub proof fn law_directory_lists_what_is_read(
    fs: Fs,
    lane: Seq<char>,
    raw: Seq<char>,
    disk: Seq<(Seq<char>, DirEntryKind)>,
    directory: Seq<char>,
    name: Seq<char>,
)
    requires
        types::normalized_label(raw) == Ok::<Seq<char>, Seq<char>>(directory),
        vfs::fs_list_dir(fs, lane, raw, disk) is Ok,
    ensures
        ({
            let names = vfs::fs_list_dir(fs, lane, raw, disk)->Ok_0;
            let child = vfs::child_of(directory, name);
            &&& names.contains_key(name) && names[name] is File ==> shows_file(fs, lane, child)
            &&& disk.contains((name, DirEntryKind::File)) && shows_file(fs, lane, child)
                ==> names.contains_key(name)
            &&& repo::overlay_listing(fs.repo, lane).contains(child) && shows_file(fs, lane, child)
                && name.len() > 0 && !name.contains('/') ==> names.contains_key(name)
        }),
{
    let entries = vfs::shown_entries(fs, lane, directory, disk)->Ok_0;
    let paths = repo::overlay_listing(fs.repo, lane);
    lemma_shown_names(fs, lane, directory, disk);
    lemma_overlaid_names(fs, lane, directory, paths, entries);
    let child = vfs::child_of(directory, name);
    let prefix = vfs::dir_prefix(directory);
    if paths.contains(child) && name.len() > 0 && !name.contains('/') {
        let i = choose|i: int| 0 <= i < paths.len() && paths[i] == child;
        assert(child =~= prefix + name);
        assert(child.subrange(0, prefix.len() as int) =~= prefix);
        assert(child.subrange(prefix.len() as int, child.len() as int) =~= name);
        assert(text::after_prefix(child, prefix) == Some(name));
        path_laws::lemma_split_join(seq![name], '/');
        assert(text::join_texts(seq![name], seq!['/']) == name);
        assert(vfs::named_by(prefix, paths[i]) == Some((name, DirEntryKind::File)));
    }
}

/// Whether some file that a lane reads lies deeper below a name of a directory.
pub open spec fn leads_to_file(
    fs: Fs,
    lane: Seq<char>,
    directory: Seq<char>,
    paths: Seq<Seq<char>>,
    name: Seq<char>,
) -> bool {
    exists|i: int|
        0 <= i < paths.len() && shows_file(fs, lane, #[trigger] paths[i]) && vfs::named_by(
            vfs::dir_prefix(directory),
            paths[i],
        ) == Some((name, DirEntryKind::Directory))
}

/// The directories that a lane shows of a directory of the base.
proof fn lemma_shown_directories(
    fs: Fs,
    lane: Seq<char>,
    directory: Seq<char>,
    disk: Seq<(Seq<char>, DirEntryKind)>,
    name: Seq<char>,
)
    requires
        vfs::shown_entries(fs, lane, directory, disk) is Ok,
    ensures
        ({
            let entries = vfs::shown_entries(fs, lane, directory, disk)->Ok_0;
            entries.contains_key(name) && entries[name] is Directory ==> disk.contains(
                (name, DirEntryKind::Directory),
            ) && repo::repo_read(fs.repo, vfs::child_of(directory, name), lane, None) == Ok::<
                Option<Seq<u8>>,
                LaneErrorView,
            >(None)
        }),
    decreases disk.len(),
{
    if disk.len() > 0 {
        let rest = disk.drop_last();
        lemma_shown_directories(fs, lane, directory, rest, name);
        assert(disk[disk.len() - 1] == disk.last());
        if rest.contains((name, DirEntryKind::Directory)) {
            let i = choose|i: int| 0 <= i < rest.len() && rest[i] == (name, DirEntryKind::Directory);
            assert(disk[i] == rest[i]);
        }
    }
}

/// The directories that overlays add.
proof fn lemma_overlaid_directories(
    fs: Fs,
    lane: Seq<char>,
    directory: Seq<char>,
    paths: Seq<Seq<char>>,
    entries: Map<Seq<char>, DirEntryKind>,
    name: Seq<char>,
)
    requires
        vfs::overlaid_entries(fs, lane, vfs::dir_prefix(directory), paths, entries) is Ok,
    ensures
        ({
            let names = vfs::overlaid_entries(
                fs,
                lane,
                vfs::dir_prefix(directory),
                paths,
                entries,
            )->Ok_0;
            names.contains_key(name) && names[name] is Directory ==> (entries.contains_key(name)
                && entries[name] is Directory) || leads_to_file(fs, lane, directory, paths, name)
        }),
    decreases paths.len(),
{
    if paths.len() > 0 {
        let rest = paths.drop_last();
        lemma_overlaid_directories(fs, lane, directory, rest, entries, name);
        assert(paths[paths.len() - 1] == paths.last());
        if leads_to_file(fs, lane, directory, rest, name) {
            let i = choose|i: int|
                0 <= i < rest.len() && shows_file(fs, lane, #[trigger] rest[i]) && vfs::named_by(
                    vfs::dir_prefix(directory),
                    rest[i],
                ) == Some((name, DirEntryKind::Directory));
            assert(paths[i] == rest[i]);
        }
        if vfs::named_by(vfs::dir_prefix(directory), paths.last()) == Some(
            (name, DirEntryKind::Directory),
        ) && shows_file(fs, lane, paths.last()) {
            assert(leads_to_file(fs, lane, directory, paths, name));
        }
    }
}

/// A name is listed as a directory only where the base has a directory of that name and the lane no
/// file in its place, or where the lane reads a file deeper below that name.
pub proof fn law_listed_directories_are_there(
    fs: Fs,
    lane: Seq<char>,
    raw: Seq<char>,
    disk: Seq<(Seq<char>, DirEntryKind)>,
    directory: Seq<char>,
    name: Seq<char>,
)
    requires
        types::normalized_label(raw) == Ok::<Seq<char>, Seq<char>>(directory),
        vfs::fs_list_dir(fs, lane, raw, disk) is Ok,
    ensures
        ({
            let names = vfs::fs_list_dir(fs, lane, raw, disk)->Ok_0;
            names.contains_key(name) && names[name] is Directory ==> (disk.contains(
                (name, DirEntryKind::Directory),
            ) && repo::repo_read(fs.repo, vfs::child_of(directory, name), lane, None) == Ok::<
                Option<Seq<u8>>,
                LaneErrorView,
            >(None)) || leads_to_file(
                fs,
                lane,
                directory,
                repo::overlay_listing(fs.repo, lane),
                name,
            )
        }),
{
    lemma_shown_directories(fs, lane, directory, disk, name);
    lemma_overlaid_directories(
        fs,
        lane,
        directory,
        repo::overlay_listing(fs.repo, lane),
        vfs::shown_entries(fs, lane, directory, disk)->Ok_0,
        name,
    );
}

} // verus!
