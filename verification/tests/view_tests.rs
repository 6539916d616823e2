//! Lanes as file systems, and commands that run in them.
use lane::materialize::restore::RestorePlan;
use lane::materialize::run::{detect_changes, ingest_raw_changes, project_lane, run_end, Aftermath, RawChange};
use lane::materialize::snapshot::{
    backup_chunk_size, backup_worker_count, event_label, BaseSnapshot, PathLook, SnapshotFile,
};
use lane::materialize::watch::{DirtyTracker, WatchReport};
use lane::text_map::TextMap;
use lane::vfs::{DirEntry, DirEntryKind, FileWorktree, LaneFs};
use lane::virtual_exec::edit::{write_range, WriteMode};
use lane::virtual_exec::nodes::{
    ensure_mutable_path, from_status, index_number, path_from_name, Status, VirtualNode,
};
use lane::virtual_exec::session::{apply_dirty_entries, prepare_session_fs};
use lane::virtual_exec::state::{DiskTree, VirtualLaneState};
use lane::virtual_exec::worker::{
    command_label, drive_letters, event_line, git_pointer, last_exec_warnings, mirrored_chunk,
    no_free_letter, program_file_names, worker_failed,
};
use lane::winfsp_mount::{
    looks_like_drive_mount, mount_path, view_root, LaneMount, NodeKind, FILE_DIRECTORY_FILE,
    FILE_NON_DIRECTORY_FILE,
};
use lane::LaneRepo;

fn lane_fs(files: &[(&str, &[u8])]) -> LaneFs {
    let mut repo = LaneRepo::new();
    for lane in ["a", "b"] {
        repo.create_lane(lane).unwrap();
    }
    let mut worktree = FileWorktree::new();
    for (path, bytes) in files {
        worktree.write_file(path, bytes.to_vec());
    }
    LaneFs::new(repo, worktree)
}

fn entry(name: &str, kind: DirEntryKind) -> DirEntry {
    DirEntry {
        name: name.to_owned(),
        kind,
    }
}

fn disk() -> DiskTree {
    let mut dirs = TextMap::new();
    dirs.insert(
        String::new(),
        vec![
            entry("f.txt", DirEntryKind::File),
            entry("src", DirEntryKind::Directory),
        ],
    );
    dirs.insert(
        "src".to_owned(),
        vec![entry("x.txt", DirEntryKind::File)],
    );
    DiskTree { dirs }
}

const FILES: &[(&str, &[u8])] = &[("f.txt", b"hello"), ("src/x.txt", b"x")];

#[test]
fn what_is_written_through_a_mount_is_in_the_lane() {
    let mut mount = LaneMount::new("a", lane_fs(FILES));
    let disk = disk();
    let context = mount.open(&disk, "\\f.txt", FILE_NON_DIRECTORY_FILE).unwrap();
    assert_eq!(context.kind, NodeKind::File);
    assert_eq!(mount.read(&context, 1, 3).unwrap(), b"ell");
    assert_eq!(mount.read(&context, 9, 3).unwrap(), b"");
    assert_eq!(mount.write(&context, b"J", 0, false, false), Ok(1));
    assert_eq!(mount.write(&context, b"!", 0, true, false), Ok(1));
    assert_eq!(mount.write(&context, b"?", 90, false, true), Ok(0));
    assert_eq!(mount.read_file("f.txt").unwrap(), b"Jello!");
    mount.set_file_size(&context, 8).unwrap();
    assert_eq!(mount.read_file("f.txt").unwrap(), b"Jello!\0\0");
    mount.overwrite(&context).unwrap();
    assert_eq!(mount.read_file("f.txt").unwrap(), b"");

    let mut stored = lane_fs(FILES);
    stored.write_file("b", "f.txt", b"B".to_vec()).unwrap();
    mount.merge_into(&mut stored).unwrap();
    assert_eq!(stored.read_file("a", "f.txt").unwrap(), Some(Vec::new()));
    assert_eq!(stored.read_file("b", "f.txt").unwrap(), Some(b"B".to_vec()));
}

#[test]
fn mounts_show_created_directories() {
    let mut mount = LaneMount::new("a", lane_fs(FILES));
    let disk = disk();
    let mut dir = mount.create(&disk, "\\new", FILE_DIRECTORY_FILE).unwrap();
    assert_eq!(dir.kind, NodeKind::Directory);
    assert_eq!(
        mount.create(&disk, "\\new", 0).unwrap_err(),
        Status::NameCollision
    );
    assert_eq!(
        mount.create(&disk, "\\none\\y", 0).unwrap_err(),
        Status::PathNotFound
    );
    let file = mount.create(&disk, "\\new\\y.txt", 0).unwrap();
    let root = mount.open(&disk, "\\", 0).unwrap();
    let rows = mount.read_directory(&disk, &root).unwrap();
    let names: Vec<&str> = rows.iter().map(|row| row.0.as_str()).collect();
    assert_eq!(names, vec!["f.txt", "new", "src"]);
    assert_eq!(rows[0], ("f.txt".to_owned(), NodeKind::File, 5));
    assert_eq!(
        mount.set_delete(&disk, &mut dir, true),
        Err(Status::DirectoryNotEmpty)
    );
    assert_eq!(
        mount.read_directory(&disk, &file).unwrap_err(),
        Status::NotADirectory
    );
    mount.rename(&disk, &file, "\\moved.txt", false).unwrap();
    assert_eq!(mount.set_delete(&disk, &mut dir, true), Ok(()));
    mount.cleanup(&dir, false);
    assert_eq!(
        mount.node_kind(&disk, "new").unwrap_err(),
        Status::NameNotFound
    );
    assert_eq!(mount.read_file("moved.txt").unwrap(), b"");
    assert_eq!(
        mount.open(&disk, "\\src", FILE_NON_DIRECTORY_FILE).unwrap_err(),
        Status::FileIsADirectory
    );
    assert_eq!(
        mount.open(&disk, "\\f.txt", FILE_DIRECTORY_FILE).unwrap_err(),
        Status::NotADirectory
    );
}

#[test]
fn mounts_hide_lane_state() {
    assert_eq!(mount_path("\\.LANE\\repo").unwrap_err(), Status::NameNotFound);
    assert_eq!(mount_path("\\a\\b").unwrap(), "a/b");
    assert!(looks_like_drive_mount("X:"));
    assert!(!looks_like_drive_mount("X:\\y"));
    assert_eq!(view_root("X:"), "X:\\");
    assert_eq!(view_root("/m"), "/m");
}

#[test]
fn edits_of_a_virtual_lane_are_seen_at_once_and_kept_by_a_flush() {
    let mut state = VirtualLaneState::new("a", lane_fs(FILES));
    let disk = disk();
    let (mut handle, node) = state.open(&disk, "\\f.txt", false, true).unwrap();
    assert_eq!(node, VirtualNode::File("f.txt".to_owned(), 5));
    assert_eq!(state.read(&handle, 0, 99).unwrap(), b"hello");
    assert_eq!(
        state.write(&mut handle, b"HE", WriteMode::Normal(0)).unwrap(),
        5
    );
    assert_eq!(state.read_file("f.txt").unwrap(), b"HEllo");
    state.write_file("src/new/y.txt", b"y".to_vec());
    assert_eq!(
        state.node_for_path(&disk, "src/new").unwrap(),
        Some(VirtualNode::Directory("src/new".to_owned()))
    );
    state.delete_file("src/x.txt");
    assert_eq!(state.node_for_path(&disk, "src/x.txt").unwrap(), None);

    let mut stored = lane_fs(FILES);
    stored.write_file("b", "f.txt", b"B".to_vec()).unwrap();
    state.flush(&mut stored, &disk).unwrap();
    assert_eq!(
        stored.changed_paths("a").unwrap(),
        vec!["f.txt", "src/new/y.txt", "src/x.txt"]
    );
    assert_eq!(stored.read_file("b", "f.txt").unwrap(), Some(b"B".to_vec()));
    assert_eq!(
        state.worker_changed_paths(&disk).unwrap(),
        vec!["f.txt", "src/new/y.txt", "src/x.txt"]
    );
}

#[test]
fn virtual_nodes_are_renamed_and_deleted() {
    let mut state = VirtualLaneState::new("a", lane_fs(FILES));
    let disk = disk();
    let (mut handle, _) = state.create(&disk, "\\d", true).unwrap();
    state.write_file("d/one.txt", b"1".to_vec());
    state.rename(&disk, &mut handle, "\\e", false).unwrap();
    assert_eq!(state.read_file("e/one.txt").unwrap(), b"1");
    assert_eq!(state.node_for_path(&disk, "d").unwrap(), None);
    assert_eq!(
        state.create(&disk, "\\f.txt", false).unwrap_err(),
        Status::NameCollision
    );
    state.set_delete(&disk, &mut handle, true).unwrap();
    assert_eq!(state.read_file("e/one.txt"), Err(Status::NoSuchFile));
    assert_eq!(
        state.open(&disk, "\\e", true, false).unwrap_err(),
        Status::NameNotFound
    );
    state.create(&disk, "\\e", true).unwrap();
    state.write_file("e/two.txt", b"2".to_vec());
    let items = state
        .read_directory(
            &disk,
            &state.open(&disk, "\\e", true, false).unwrap().0,
            None,
        )
        .unwrap();
    assert!(items.iter().any(|item| item.name == "two.txt"));
    assert_eq!(
        ensure_mutable_path(".git/config").unwrap_err(),
        Status::AccessDenied
    );
    assert_eq!(ensure_mutable_path("src/x.txt"), Ok(()));
    assert_eq!(
        path_from_name("\\.lane\\x").unwrap_err(),
        Status::AccessDenied
    );
}

#[test]
fn ranges_of_files_are_written() {
    assert_eq!(
        write_range(b"abc".to_vec(), b"XY", WriteMode::Normal(4)).unwrap(),
        b"abc\0XY"
    );
    assert_eq!(
        write_range(b"abc".to_vec(), b"XY", WriteMode::Constrained(2)).unwrap(),
        b"abX"
    );
    assert_eq!(
        write_range(b"abc".to_vec(), b"XY", WriteMode::ToEnd).unwrap(),
        b"abcXY"
    );
}

#[test]
fn statuses_and_names_are_numbered() {
    assert_eq!(Status::NameNotFound.number(), 0xC000_0034);
    assert_eq!(
        from_status("open", Status::AccessDenied),
        "virtual lane filesystem failed while trying to open with NTSTATUS 0xc0000022"
    );
    assert_eq!(path_from_name("\\a\\b").unwrap(), "a/b");
    assert_eq!(index_number(""), 0xcbf2_9ce4_8422_2325);
    assert_eq!(index_number("a"), 0xaf63_dc4c_8601_ec8c);
}

#[test]
fn a_session_starts_from_the_lane() {
    let mut repo = LaneRepo::new();
    repo.create_lane("a").unwrap();
    let mut fs = LaneFs::new(repo, FileWorktree::new());
    let session = prepare_session_fs(&mut fs, "fresh").unwrap();
    assert!(session.repo().lane_exists("fresh"));
    assert!(apply_dirty_entries(&mut fs, "a", &Vec::new()).is_ok());
}

#[test]
fn workers_are_described() {
    assert_eq!(
        command_label("agent", &vec!["a b".to_owned()]),
        "agent \"a b\""
    );
    assert_eq!(drive_letters().len(), 23);
    assert_eq!(git_pointer("gitdir: ../x\n"), Some("../x".to_owned()));
    assert_eq!(git_pointer("other"), None);
    assert_eq!(mirrored_chunk("a", "stdout", ""), "");
    assert!(event_line("a", 5, "started").contains("started"));
    assert!(no_free_letter(None).contains("drive letter"));
    assert!(worker_failed(Some(1), &None));
    assert!(!worker_failed(Some(0), &None));
    assert!(last_exec_warnings(None).is_empty());
    assert_eq!(last_exec_warnings(Some("x")).len(), 1);
    assert_eq!(
        program_file_names("tool.exe", &vec![]),
        Some(vec!["tool.exe".to_owned()])
    );
    assert_eq!(
        program_file_names("tool", &vec![".COM".to_owned()]),
        Some(vec!["tool.COM".to_owned()])
    );
    assert_eq!(program_file_names("/bin/tool", &vec![]), None);
}

fn file(len: u64, modified: i128) -> SnapshotFile {
    SnapshotFile {
        len,
        modified: Some(modified),
    }
}

fn snapshot(files: &[(&str, SnapshotFile)], dirs: &[&str]) -> BaseSnapshot {
    let mut map = TextMap::new();
    for (path, look) in files {
        map.insert(path.to_string(), *look);
    }
    let mut names = TextMap::new();
    for dir in dirs {
        names.insert(dir.to_string(), ());
    }
    BaseSnapshot {
        files: map,
        dirs: names,
    }
}

#[test]
fn snapshots_tell_what_changed() {
    let before = snapshot(&[("a", file(1, 1)), ("d/b", file(2, 2))], &["d"]);
    let mut after = snapshot(&[("a", file(1, 9)), ("d/b", file(2, 2)), ("n", file(0, 0))], &["d"]);
    assert_eq!(before.changed_paths(&after), vec!["a", "n"]);
    assert!(!before.path_changed(&after, "d/b"));
    after.refresh_path("d", &PathLook::Nothing);
    assert_eq!(before.changed_paths(&after), vec!["a", "d", "d/b", "n"]);
    let aftermath = Aftermath {
        snapshot: before,
        below: TextMap::new(),
    };
    let same = snapshot(&[("a", file(1, 1)), ("d/b", file(2, 2))], &["d"]);
    assert!(detect_changes(&same, &aftermath, true, &TextMap::new()).is_empty());
}

#[test]
fn restoring_puts_files_back() {
    let before = snapshot(&[("a", file(1, 1)), ("d/b", file(1, 2))], &["d"]);
    let now = snapshot(&[("a", file(1, 9)), ("n", file(3, 3))], &[]);
    let mut backup = TextMap::new();
    backup.insert("a".to_owned(), b"A".to_vec());
    backup.insert("d/b".to_owned(), b"B".to_vec());
    let paths: Vec<String> = ["a", "d/b", "n"].iter().map(|p| p.to_string()).collect();
    let plan: RestorePlan = before.restore_files(&now.files, &backup, &paths);
    assert_eq!(plan.missing, None);
    let steps: Vec<(&str, Option<&[u8]>)> = plan
        .steps
        .iter()
        .map(|s| (s.path.as_str(), s.bytes.as_deref()))
        .collect();
    assert!(steps.contains(&("a", Some(&b"A"[..]))));
    assert!(steps.contains(&("d/b", Some(&b"B"[..]))));
    assert!(steps.contains(&("n", None)));
    assert_eq!(before.missing_dirs(&vec!["d".to_owned()], &now.dirs), vec!["d"]);
}

#[test]
fn watchers_collect_paths_or_give_up() {
    let mut tracker = DirtyTracker::start(true);
    tracker.take(&WatchReport::Paths(vec!["a".to_owned(), "b/c".to_owned()]));
    let dirty = tracker.finish(false);
    assert!(!dirty.fallback);
    assert!(dirty.paths.contains_key("a"));
    let mut tracker = DirtyTracker::start(true);
    tracker.take(&WatchReport::Failure);
    assert!(tracker.finish(false).fallback);
    assert!(DirtyTracker::start(false).finish(false).fallback);
    assert_eq!(event_label("src\\a.txt"), Some("src/a.txt".to_owned()));
}

#[test]
fn backups_are_shared_out() {
    assert_eq!(backup_worker_count(3, 8), 1);
    assert_eq!(backup_worker_count(100, 4), 4);
    assert_eq!(backup_worker_count(100, 64), 8);
    assert_eq!(backup_chunk_size(100, 8), 13);
}

#[test]
fn raw_changes_become_lane_changes() {
    let mut fs = lane_fs(&[("a.txt", b"one\r\ntwo\r\n")]);
    let before = snapshot(&[("a.txt", file(10, 1))], &[]);
    ingest_raw_changes(
        &mut fs,
        "a",
        &before,
        vec![RawChange {
            path: "b.txt".to_owned(),
            content: Some(b"new".to_vec()),
        }],
    )
    .unwrap();
    assert_eq!(fs.read_file("a", "b.txt").unwrap(), Some(b"new".to_vec()));
    let projection = project_lane(&fs, "a").unwrap();
    assert_eq!(projection.paths, vec!["b.txt"]);
    assert_eq!(projection.changes[0].content, Some(b"new".to_vec()));
    let end = run_end(&vec![], None);
    assert!(end.ingest);
    let failed = run_end(&vec!["a".to_owned()], Some("x".to_owned()));
    assert!(!failed.restored);
}

#[test]
fn directories_that_cannot_be_listed_are_neither_renamed_nor_deleted() {
    let mut dirs = TextMap::new();
    dirs.insert(String::new(), vec![]);
    let empty = DiskTree { dirs };
    let mut state = VirtualLaneState::new("a", lane_fs(&[]));
    state.delete_file("a");
    assert_eq!(
        state.rename_dir(&empty, "a/b", "c", false),
        Err(Status::NameNotFound)
    );
    assert_eq!(state.node_for_path(&empty, "c"), Ok(None));
    assert!(state.delete_dir(&empty, "x/../far/too/long").is_err());
    assert!(state.rename_dir(&empty, "x/../far/too/long", "c", false).is_err());
}

#[test]
fn directories_are_listed_by_their_normal_form() {
    let mut state = VirtualLaneState::new("a", lane_fs(FILES));
    let disk = disk();
    assert_eq!(
        state.collect_visible_files(&disk, "./././././src"),
        Ok(vec!["./././././src/x.txt".to_owned()])
    );
    assert_eq!(
        state.collect_state_visible_files(&disk, ""),
        Ok(vec!["f.txt".to_owned(), "src/x.txt".to_owned()])
    );
    state.delete_dir(&disk, "./src").unwrap();
    assert_eq!(
        state.read_file("./src/x.txt"),
        Err(Status::NoSuchFile)
    );
}
