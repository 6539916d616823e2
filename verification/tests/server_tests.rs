//! The demo server.
use lane::demo::{
    ensure_lane_id, normalize_repo_path, read, render_view, sample_base, seed_repo, storage_label,
    storage_path, ApiStatus, DEMO_PATH, STORAGE_PATH,
};
use lane::{AppState, SourceProjection};

fn content_for_mode(mode: &str) -> String {
    format!(
        "export const mode = '{mode}';\n\nexport function describeLane() {{\n  return `current mode: ${{mode}}`;\n}}\n"
    )
}

fn server() -> AppState {
    AppState::new("/project", seed_repo(sample_base()))
}

fn source() -> SourceProjection {
    SourceProjection::from_worktree(sample_base().to_vec())
}

#[test]
fn storage_label_matches_the_project_backing_file() {
    let root = "/home/user/project";
    assert_eq!(storage_label(root, &storage_path(root), false), "demo/example.lane");
}

#[test]
fn paths_outside_the_project_are_shown_whole() {
    assert_eq!(storage_label("/a", "\\\\share\\x.lane", false), "share/x.lane");
}

#[test]
fn the_project_directory_is_a_whole_component() {
    assert_eq!(storage_label("/p", "/p2/x", false), "p2/x");
    assert_eq!(storage_label("/p", "/p/x", false), "x");
    assert_eq!(storage_label("/p/", "/p//x", false), "x");
    assert_eq!(storage_label("/p", "/p\\x", false), "p/x");
    assert_eq!(storage_label("C:\\p", "C:\\p\\x", true), "x");
    assert_eq!(storage_label("C:\\p", "C:\\p2\\x", true), "C:/p2/x");
}

#[test]
fn dots_between_the_project_directory_and_a_path_do_not_matter() {
    assert_eq!(storage_label("/p", "/p/./demo/x", false), "demo/x");
    assert_eq!(storage_label("/p/.", "//p/x", false), "x");
    assert_eq!(storage_label("/./p", "/p/demo/./x/.", false), "demo/./x");
    assert_eq!(storage_label("/p", "/p/.", false), "");
    assert_eq!(storage_label("/p", "/p/..", false), "..");
    assert_eq!(storage_label("p", "./p/x", false), "./p/x");
    assert_eq!(storage_label("/", "/p/x", false), "p/x");
    assert_eq!(storage_label("/q", "/p/./x/", false), "p/./x/");
    assert_eq!(storage_label("c:\\p", "C:/p/.\\x", true), "x");
    assert_eq!(storage_label("C:p", "C:\\p\\x", true), "C:/p/x");
    assert_eq!(
        storage_label("\\\\host\\share\\p", "//host/share/p/x", true),
        "x"
    );
    assert_eq!(
        storage_label("\\\\host\\share", "//host/share/p/x", true),
        "p/x"
    );
}

#[test]
fn a_drive_or_a_backslash_leads_out_on_windows_only() {
    assert_eq!(normalize_repo_path("C:notes.txt", false).unwrap(), "C:notes.txt");
    assert_eq!(normalize_repo_path("\\x", false).unwrap(), "/x");
    assert_eq!(normalize_repo_path("a\\..\\b", false).unwrap(), "a/../b");
    for path in ["C:notes.txt", "\\x", "/x", "\\\\server", "a\\..\\b"] {
        assert_eq!(
            normalize_repo_path(path, true).unwrap_err().message,
            "path must stay inside the repo"
        );
    }
    for path in ["C:\\x", "c:/x", "\\\\server\\share", "\\\\?\\x", "//./x"] {
        assert_eq!(
            normalize_repo_path(path, true).unwrap_err().message,
            "path must be repo-relative"
        );
    }
    assert_eq!(normalize_repo_path(".\\a/b", true).unwrap(), "a/b");
    assert_eq!(normalize_repo_path("a/C:/b", true).unwrap(), "C:b");
}

#[test]
fn seeded_lanes_differ_in_mode() {
    let repo = seed_repo(sample_base());
    assert_eq!(sample_base(), content_for_mode("base").as_bytes());
    for (lane, mode) in [("agent-a", "fast"), ("agent-b", "safe")] {
        assert_eq!(
            read(&repo, DEMO_PATH, lane, sample_base()).unwrap(),
            content_for_mode(mode).as_bytes()
        );
    }
    let other = seed_repo(b"other");
    assert_eq!(read(&other, DEMO_PATH, "agent-a", b"other").unwrap(), b"other");
}

#[test]
fn state_shows_base_and_lanes() {
    let app = server();
    assert_eq!(app.storage_path, "/project/.lane/repo.lane");
    assert_eq!(app.storage_label, STORAGE_PATH);
    let state = app.snapshot(source().bytes()).unwrap();
    assert_eq!(state.file_path, "demo/example.ts");
    assert_eq!(state.base.id, "base");
    assert_eq!(state.base.content, content_for_mode("base"));
    assert_eq!(state.base.byte_len, sample_base().len());
    let ids: Vec<&str> = state.lanes.iter().map(|v| v.id.as_str()).collect();
    assert_eq!(ids, vec!["agent-a", "agent-b"]);
    assert_eq!(state.lanes[1].content, content_for_mode("safe"));
}

#[test]
fn invalid_utf8_is_shown_with_replacement_characters() {
    let view = render_view("base", b"ok \xff end");
    assert_eq!(view.content, "ok \u{fffd} end");
    assert_eq!(view.byte_len, 8);
}

#[test]
fn edits_promotions_and_resets_follow_each_other() {
    let mut app = server();
    let edited = content_for_mode("manual");
    let draft = app
        .replace_lane("agent-a", &source(), edited.clone().into_bytes())
        .unwrap();
    app.commit(draft, Ok(())).unwrap();
    assert_eq!(
        app.read_projection(DEMO_PATH, "agent-a", &source(), false).unwrap(),
        edited.as_bytes()
    );

    let (draft, worktree) = app.promote_lane("agent-a", &source()).unwrap();
    assert_eq!(worktree, edited.as_bytes());
    app.commit_with_file(draft, Ok(()), Ok(()), Ok(())).unwrap();
    let promoted = SourceProjection::from_worktree(worktree);
    assert_eq!(
        app.read_projection(DEMO_PATH, "agent-a", &promoted, false).unwrap(),
        edited.as_bytes()
    );
    assert_eq!(
        app.read_projection(DEMO_PATH, "agent-b", &promoted, false).unwrap(),
        content_for_mode("safe").as_bytes()
    );

    app.commit_with_file(seed_repo(sample_base()), Ok(()), Ok(()), Ok(()))
        .unwrap();
    assert_eq!(
        app.read_projection(DEMO_PATH, "agent-a", &source(), false).unwrap(),
        content_for_mode("fast").as_bytes()
    );
}

#[test]
fn failed_persist_does_not_commit_memory() {
    let mut app = server();
    let draft = app
        .replace_lane("agent-a", &source(), content_for_mode("manual").into_bytes())
        .unwrap();
    let error = app.commit(draft, Err("disk full".to_owned())).unwrap_err();
    assert_eq!(error.status, ApiStatus::ServerError);
    assert_eq!(error.message, "persist lane repo: disk full");
    assert_eq!(
        app.read_projection(DEMO_PATH, "agent-a", &source(), false).unwrap(),
        content_for_mode("fast").as_bytes()
    );

    let (draft, _) = app.promote_lane("agent-a", &source()).unwrap();
    let error = app
        .commit_with_file(draft, Ok(()), Err("busy".to_owned()), Err("gone".to_owned()))
        .unwrap_err();
    assert_eq!(
        error.message,
        "persist source file: busy; rollback lane repo: gone"
    );
    assert_eq!(app.repo.overlay_paths("agent-a").unwrap(), vec![DEMO_PATH]);
}

#[test]
fn ranges_are_written_and_deleted() {
    let mut app = server();
    let draft = app
        .write_range("agent-a", &source(), 21, 25, b"slow".to_vec())
        .unwrap();
    app.commit(draft, Ok(())).unwrap();
    assert_eq!(
        app.read_projection(DEMO_PATH, "agent-a", &source(), false).unwrap(),
        content_for_mode("slow").as_bytes()
    );
    let draft = app.delete_range("agent-a", &source(), 21, 25).unwrap();
    app.commit(draft, Ok(())).unwrap();
    assert_eq!(
        app.read_projection(DEMO_PATH, "agent-a", &source(), false).unwrap(),
        content_for_mode("").as_bytes()
    );
    let error = app
        .write_range("agent-a", &source(), 5, 4, Vec::new())
        .unwrap_err();
    assert_eq!(error.status.code(), 400);
    assert_eq!(
        error.message,
        "OperationOutOfBounds { path: \"demo/example.ts\" }"
    );
}

#[test]
fn line_endings_of_the_worktree_are_kept() {
    let mut app = AppState::new("", seed_repo(b"x"));
    assert_eq!(app.storage_path, ".lane/repo.lane");
    let source = SourceProjection::from_worktree(b"one\r\ntwo\r\n".to_vec());
    let draft = app
        .write_range("agent-a", &source, 0, 3, b"1\r\n1".to_vec())
        .unwrap();
    app.commit(draft, Ok(())).unwrap();
    let (_, worktree) = app.promote_lane("agent-a", &source).unwrap();
    assert_eq!(worktree, b"1\r\n1\r\ntwo\r\n");
}

#[test]
fn requests_that_cannot_be_met_are_refused() {
    let app = server();
    for lane in ["base", " "] {
        let error = ensure_lane_id(lane).unwrap_err();
        assert_eq!(error.message, format!("reserved lane id: {lane}"));
    }
    assert_eq!(
        app.create_lane("base").unwrap_err().status,
        ApiStatus::BadRequest
    );
    assert_eq!(
        app.create_lane(" x").unwrap_err().message,
        "InvalidLane(\" x\")"
    );
    assert!(app.create_lane("agent-c").is_ok());
    assert_eq!(
        app.promote_lane("missing", &source()).unwrap_err().message,
        "LaneMissing(\"missing\")"
    );
    let moved = SourceProjection::from_worktree(b"moved".to_vec());
    let error = app.read_projection(DEMO_PATH, "agent-a", &moved, false).unwrap_err();
    assert_eq!(error.status.code(), 409);
    let draft = app.discard_lane("agent-a").unwrap();
    assert_eq!(draft.lane_ids(), vec!["agent-b"]);

    for (path, message) in [
        ("  ", "missing path"),
        ("./", "missing path"),
        ("/etc/x", "path must be repo-relative"),
        ("a/../b", "path must stay inside the repo"),
        (".Lane/x", "cannot project lane state files"),
    ] {
        assert_eq!(normalize_repo_path(path, false).unwrap_err().message, message);
    }
    assert_eq!(normalize_repo_path("./a\\b", false).unwrap(), "a/b");
}

fn made_of(pieces: &[&str], count: usize) -> Vec<String> {
    let mut all = vec![String::new()];
    let mut last = all.clone();
    for _ in 0..count {
        let mut next = Vec::new();
        for path in &last {
            for piece in pieces {
                next.push(format!("{path}{piece}"));
            }
        }
        all.extend(next.iter().cloned());
        last = next;
    }
    all
}

#[test]
fn paths_are_shown_as_the_system_takes_them_apart() {
    let windows = std::path::MAIN_SEPARATOR == '\\';
    let paths = made_of(&["/", ".", "p", "..", "\\"], 5);
    for root in ["", "/", ".", "/p", "p", "./p", "/p/.", "//p/", "/p/..", "/./p/p", "p/."] {
        for path in &paths {
            let whole = std::path::Path::new(path);
            let rest = whole.strip_prefix(root).unwrap_or(whole).to_string_lossy();
            let shown = rest.trim_start_matches(['\\', '/']).replace('\\', "/");
            assert_eq!(storage_label(root, path, windows), shown, "{root:?} {path:?}");
        }
    }
}

#[test]
fn requested_paths_are_taken_apart_as_by_the_system() {
    let windows = std::path::MAIN_SEPARATOR == '\\';
    for path in &made_of(&["/", ".", "p", "..", "\\", "C:"], 4) {
        let whole = std::path::Path::new(path);
        let mut label = std::path::PathBuf::new();
        let mut inside = true;
        for component in whole.components() {
            match component {
                std::path::Component::Normal(part) => label.push(part),
                std::path::Component::CurDir => {}
                _ => inside = false,
            }
        }
        let expected = if path.is_empty() {
            Err("missing path".to_owned())
        } else if whole.is_absolute() {
            Err("path must be repo-relative".to_owned())
        } else if !inside {
            Err("path must stay inside the repo".to_owned())
        } else if label.as_os_str().is_empty() {
            Err("missing path".to_owned())
        } else {
            Ok(label.to_string_lossy().replace('\\', "/"))
        };
        assert_eq!(
            normalize_repo_path(path, windows).map_err(|error| error.message),
            expected,
            "{path:?}"
        );
    }
}
