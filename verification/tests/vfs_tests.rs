//! Paths, file trees of lanes, and how promotions are carried out.
use lane::commit::{commit_steps, rollback_failure, PathOps};
use lane::vfs::{
    normalize_repo_path, DirEntry, DirEntryKind, FileWorktree, LaneFileChangeStatus, LaneFs,
    LaneFsError,
};
use lane::{LaneError, LaneRepo};

fn tree(files: &[(&str, &[u8])]) -> FileWorktree {
    let mut worktree = FileWorktree::new();
    for (path, bytes) in files {
        worktree.write_file(path, bytes.to_vec());
    }
    worktree
}

fn lane_fs(files: &[(&str, &[u8])]) -> LaneFs {
    let mut repo = LaneRepo::new();
    repo.create_lane("agent-a").unwrap();
    repo.create_lane("agent-b").unwrap();
    LaneFs::new(repo, tree(files))
}

fn op_ids(fs: &LaneFs, path: &str) -> Vec<String> {
    fs.change_for_path("agent-a", path)
        .unwrap()
        .unwrap_or_else(|| panic!("missing change for {path}"))
        .ops
        .into_iter()
        .map(|op| op.op_id)
        .collect()
}

fn assert_bad_path<T: std::fmt::Debug>(result: Result<T, LaneFsError>, message: &str) {
    match result {
        Err(LaneFsError::BadPath(error)) => assert!(
            error.contains(message),
            "expected bad path error to contain {message:?}, got {error:?}"
        ),
        other => panic!("expected bad path error containing {message:?}, got {other:?}"),
    }
}

#[test]
fn path_normalization_rejects_repo_metadata_case_insensitively() {
    assert!(matches!(
        normalize_repo_path(".LANE/repo.json"),
        Err(LaneFsError::BadPath(message)) if message == "cannot project lane state files"
    ));
    assert!(matches!(
        normalize_repo_path(".GIT/config"),
        Err(LaneFsError::BadPath(message)) if message == "cannot project git metadata files"
    ));
    assert_eq!(
        normalize_repo_path("src/.git/config").unwrap(),
        "src/.git/config"
    );
}

#[test]
fn lane_fs_normalizes_current_dir_paths_and_rejects_unsafe_paths() {
    let mut fs_view = lane_fs(&[("src/example.ts", b"base")]);

    assert_eq!(
        fs_view
            .read_file("agent-a", "./src/example.ts")
            .unwrap()
            .unwrap(),
        b"base"
    );

    for (path, message) in [
        ("", "missing path"),
        (".lane/repo.json", "cannot project lane state files"),
        ("../outside.ts", "path must stay inside the repo"),
    ] {
        assert_bad_path(fs_view.read_file("agent-a", path), message);
    }
    assert_bad_path(
        fs_view.read_file("agent-a", "/tmp/project/src/example.ts"),
        "path must be repo-relative",
    );
    assert_bad_path(
        fs_view.write_file("agent-a", ".lane/agent.json", b"nope".to_vec()),
        "cannot project lane state files",
    );
}

#[test]
fn promotion_rolls_back_worktree_when_persist_fails() {
    let mut fs = lane_fs(&[("src/example.txt", b"base")]);
    fs.write_file("agent-a", "src/example.txt", b"lane".to_vec())
        .unwrap();
    let ops = op_ids(&fs, "src/example.txt");

    let promoted = fs
        .promote_ops_files(
            "agent-a",
            &vec![PathOps {
                path: "src/example.txt".to_owned(),
                ops,
            }],
        )
        .unwrap();
    assert_eq!(promoted.files.len(), 1);
    assert_eq!(promoted.files[0].bytes, Some(b"lane".to_vec()));

    assert_eq!(fs.base_file("src/example.txt"), Some(&b"base"[..]));
    assert_eq!(
        fs.read_file("agent-a", "src/example.txt").unwrap(),
        Some(b"lane".to_vec())
    );
    assert_eq!(
        fs.change_for_path("agent-a", "src/example.txt")
            .unwrap()
            .unwrap()
            .status,
        LaneFileChangeStatus::Modified
    );
}

#[test]
fn promotion_rolls_back_worktree_when_later_file_write_fails() {
    let mut fs_view = lane_fs(&[
        ("src/swap/original.txt", b"original"),
        ("zz-blocked", b"still a file"),
    ]);
    fs_view
        .write_file("agent-a", "a.txt", b"created".to_vec())
        .unwrap();
    fs_view
        .write_file("agent-a", "src/swap", b"now a file".to_vec())
        .unwrap();
    fs_view
        .write_file("agent-a", "zz-blocked/nested.txt", b"cannot write".to_vec())
        .unwrap();

    let selections: Vec<PathOps> = ["a.txt", "src/swap", "zz-blocked/nested.txt"]
        .into_iter()
        .map(|path| PathOps {
            path: path.to_owned(),
            ops: op_ids(&fs_view, path),
        })
        .collect();

    let promoted = fs_view.promote_ops_files("agent-a", &selections).unwrap();
    assert_eq!(promoted.files.len(), 3);
    let steps = commit_steps(&promoted.files);
    assert!(steps.removes.is_empty());
    let written: Vec<&str> = steps.writes.iter().map(|w| w.path.as_str()).collect();
    assert_eq!(written, vec!["a.txt", "src/swap", "zz-blocked/nested.txt"]);

    // Nothing of it is taken over before it is written.
    assert_eq!(fs_view.base_file("a.txt"), None);
    assert_eq!(
        fs_view.base_file("src/swap/original.txt"),
        Some(&b"original"[..])
    );
    assert_eq!(fs_view.base_file("zz-blocked"), Some(&b"still a file"[..]));
    assert_eq!(
        fs_view.changed_paths("agent-a").unwrap(),
        vec!["a.txt", "src/swap", "zz-blocked/nested.txt"]
    );

    let error = rollback_failure(&LaneFsError::Io("write failed".to_owned()), "no space");
    assert_eq!(
        error,
        LaneFsError::Io("failed to commit promoted files: write failed; rollback failed: no space".to_owned())
    );
}

#[test]
fn commit_shows_the_promoted_base() {
    let mut fs = lane_fs(&[("a.txt", b"one\n"), ("b.txt", b"two\n")]);
    fs.write_file("agent-a", "a.txt", b"one!\n".to_vec()).unwrap();
    fs.write_file("agent-b", "b.txt", b"two!\n".to_vec()).unwrap();
    let ops = op_ids(&fs, "a.txt");
    let promoted = fs
        .promote_ops_files(
            "agent-a",
            &vec![PathOps {
                path: "./a.txt".to_owned(),
                ops,
            }],
        )
        .unwrap();
    fs.commit(promoted);

    assert_eq!(fs.base_file("a.txt"), Some(&b"one!\n"[..]));
    assert_eq!(
        fs.read_file("agent-b", "a.txt").unwrap(),
        Some(b"one!\n".to_vec())
    );
    assert_eq!(
        fs.read_file("agent-b", "b.txt").unwrap(),
        Some(b"two!\n".to_vec())
    );
    assert_eq!(fs.change_for_path("agent-a", "a.txt").unwrap(), None);
}

#[test]
fn removals_come_before_writes_and_deeper_ones_first() {
    let mut fs = lane_fs(&[("d", b"file"), ("x/y/z.txt", b"deep"), ("x/a.txt", b"a")]);
    for path in ["d", "x/y/z.txt", "x/a.txt"] {
        fs.delete_file("agent-a", path).unwrap();
    }
    fs.write_file("agent-a", "d/inner.txt", b"inner".to_vec())
        .unwrap();
    let selections: Vec<PathOps> = ["d", "x/y/z.txt", "x/a.txt", "d/inner.txt"]
        .into_iter()
        .map(|path| PathOps {
            path: path.to_owned(),
            ops: op_ids(&fs, path),
        })
        .collect();
    let promoted = fs.promote_ops_files("agent-a", &selections).unwrap();
    let steps = commit_steps(&promoted.files);
    let removed: Vec<&str> = steps.removes.iter().map(|r| r.path.as_str()).collect();
    assert_eq!(removed, vec!["x/y/z.txt", "x/a.txt", "d"]);
    assert_eq!(steps.writes.len(), 1);
    assert_eq!(steps.writes[0].path, "d/inner.txt");
    assert_eq!(steps.writes[0].bytes, b"inner");
}

#[test]
fn directories_show_what_the_lane_shows() {
    let mut fs = lane_fs(&[("src/a.txt", b"a"), ("src/b.txt", b"b")]);
    fs.delete_file("agent-a", "src/a.txt").unwrap();
    fs.write_file("agent-a", "src/new/c.txt", b"c".to_vec())
        .unwrap();
    let disk = vec![
        DirEntry {
            name: "a.txt".to_owned(),
            kind: DirEntryKind::File,
        },
        DirEntry {
            name: "b.txt".to_owned(),
            kind: DirEntryKind::File,
        },
    ];
    let shown = fs.list_dir("agent-a", "src", &disk).unwrap();
    let names: Vec<(&str, DirEntryKind)> =
        shown.iter().map(|e| (e.name.as_str(), e.kind)).collect();
    assert_eq!(
        names,
        vec![("b.txt", DirEntryKind::File), ("new", DirEntryKind::Directory)]
    );
    let other = fs.list_dir("agent-b", "src", &disk).unwrap();
    assert_eq!(other.len(), 2);
}

#[test]
fn errors_of_lanes_pass_through() {
    let fs = lane_fs(&[]);
    let error = fs.read_file("missing", "a.txt").unwrap_err();
    assert_eq!(
        error,
        LaneFsError::Lane(LaneError::LaneMissing("missing".to_owned()))
    );
    assert_eq!(error.message(), "LaneMissing(\"missing\")");
    assert_eq!(
        LaneFsError::BadPath("missing path".to_owned()).message(),
        "missing path"
    );
}

#[test]
fn lanes_can_be_read_after_every_step() {
    let mut fs = lane_fs(&[("f", b"one\ntwo\n"), ("g", b"g")]);
    fs.write_file("agent-a", "f", b"ONE\ntwo\nthree\n".to_vec()).unwrap();
    fs.write_file("agent-a", "g", b"G".to_vec()).unwrap();
    fs.write_file("agent-b", "f", b"eins\ntwo\n".to_vec()).unwrap();
    fs.delete_file("agent-b", "g").unwrap();
    let selections: Vec<PathOps> = ["f", "g"]
        .into_iter()
        .map(|path| PathOps {
            path: path.to_owned(),
            ops: op_ids(&fs, path),
        })
        .collect();
    let promoted = fs.promote_ops_files("agent-a", &selections).unwrap();
    fs.commit(promoted);
    assert_eq!(
        fs.read_file("agent-a", "f").unwrap(),
        Some(b"ONE\ntwo\nthree\n".to_vec())
    );
    assert_eq!(fs.read_file("agent-a", "g").unwrap(), Some(b"G".to_vec()));
    assert_eq!(
        fs.read_file("agent-b", "f").unwrap(),
        Some(b"eins\ntwo\n".to_vec())
    );
    assert_eq!(fs.read_file("agent-b", "g").unwrap(), None);
    fs.discard_lane("agent-b");
    assert!(fs.read_file("agent-b", "f").is_err());
    assert_eq!(fs.read_file("agent-a", "g").unwrap(), Some(b"G".to_vec()));
}
