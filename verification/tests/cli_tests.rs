//! What the commands decide and report.
use lane::cli::accept::{accept_clean, accept_ops, accept_replacement_op, discard, format_diff};
use lane::cli::accept_group::accept_replacement_ops;
use lane::cli::collect::collect_review;
use lane::cli::compare::format_compare;
use lane::cli::human_review;
use lane::cli::labels::{
    bytes_label, count_label, format_command, last_exec_detail, last_exec_label, one_line_preview,
    op_label, preview_label,
};
use lane::cli::orchestrate::{
    attempt_lanes, check_failed, check_name, compare_attempts, ensure_run_is_new,
    ensure_run_version, reserve_attempt_lanes, run_failed, run_file_name, run_lanes, sorted_attempts,
    validate_run_request,
};
use lane::cli::output::{ReviewActionKind, ReviewOpState, ReviewOutput};
use lane::cli::preview::byte_preview;
use lane::cli::records::{AttemptRecord, CheckRecord, CompareOutput, RecordedExec, RunRecord};
use lane::cli::review::{changes_for_paths, collect_changes, review_lanes};
use lane::cli::runs::{append_check, discard_run, run_history};
use lane::cli::targets::{
    accept_replacement_ops_cli_error, accept_target, discard_target, parse_lane_op_selections,
    resolve_target, review_target, AcceptRequest, Named, ReviewRequest,
};
use lane::combine::LaneOpSelection;
use lane::text_map::TextMap;
use lane::vfs::{FileWorktree, LaneFs, LaneFsError};
use lane::{CliError, LaneError, LaneRepo, LaneRunState, LaneTextPreview};

fn lane_fs() -> LaneFs {
    let mut repo = LaneRepo::new();
    for lane in ["a", "b"] {
        repo.create_lane(lane).unwrap();
    }
    let mut worktree = FileWorktree::new();
    worktree.write_file("f.txt", b"one\ntwo\nthree\n".to_vec());
    worktree.write_file("g.txt", b"g\n".to_vec());
    let mut fs = LaneFs::new(repo, worktree);
    fs.write_file("a", "f.txt", b"ABC\ntwo\nthree!\n".to_vec())
        .unwrap();
    fs.write_file("b", "f.txt", b"XYZ\ntwo\nthree\n".to_vec())
        .unwrap();
    fs.write_file("b", "g.txt", b"g2\n".to_vec()).unwrap();
    fs
}

fn review_output(fs: &LaneFs, lane: Option<&str>) -> ReviewOutput {
    let lanes = review_lanes(fs, lane).unwrap();
    let review = collect_review(fs, &TextMap::new(), &lanes).unwrap();
    ReviewOutput {
        lane: lane.map(str::to_owned),
        repo_root: "/repo".to_owned(),
        storage_path: "/repo/.lane".to_owned(),
        summary: review.summary,
        lanes: review.lanes,
        paths: review.paths,
    }
}

fn message<T: std::fmt::Debug>(result: Result<T, CliError>) -> String {
    result.unwrap_err().text().to_owned()
}

fn exec(exit_code: Option<i32>) -> RecordedExec {
    RecordedExec {
        exit_code,
        worker_error: None,
        stdout: LaneTextPreview::from_text(""),
        stderr: LaneTextPreview::from_text(""),
        changed_paths: vec![],
        total_ms: 5,
        change_count: 0,
        warnings: vec![],
    }
}

fn attempt(index: usize, lane: &str, exit_code: Option<i32>) -> AttemptRecord {
    AttemptRecord {
        index,
        lane: lane.to_owned(),
        recorded: Some(exec(exit_code)),
        orchestration_error: None,
    }
}

fn run_record(attempts: Vec<AttemptRecord>) -> RunRecord {
    RunRecord {
        version: 1,
        name: "login".to_owned(),
        command: vec!["agent".to_owned()],
        attempts,
        checks: vec![],
    }
}

#[test]
fn reviews_count_every_operation_once() {
    let fs = lane_fs();
    let output = review_output(&fs, None);
    assert_eq!(output.summary.lanes, 2);
    assert_eq!(output.summary.changed_paths, 2);
    assert_eq!(output.summary.clean_ops, 2);
    assert_eq!(output.summary.conflicted_ops, 2);
    assert_eq!(output.summary.conflict_groups, 1);
    let path = &output.paths[0];
    assert_eq!(path.path, "f.txt");
    assert_eq!(path.clean_ops.len(), 1);
    assert_eq!(path.conflicts[0].lanes, vec!["a", "b"]);
    assert_eq!(
        (path.conflicts[0].range_start, path.conflicts[0].range_end),
        (0, 3)
    );
    let states: Vec<ReviewOpState> = path.ops.iter().map(|op| op.state).collect();
    assert_eq!(
        states,
        vec![
            ReviewOpState::Conflicted,
            ReviewOpState::Conflicted,
            ReviewOpState::Clean
        ]
    );
    let lane = &output.lanes[0];
    assert_eq!((lane.clean_ops, lane.conflicted_ops), (1, 1));
    assert_eq!(lane.actions[0].kind, ReviewActionKind::Accept);
    assert_eq!(lane.actions[0].command, vec!["accept", "a"]);
    assert_eq!(lane.actions[1].command, vec!["discard", "a"]);
}

#[test]
fn reviews_are_written_for_people() {
    let fs = lane_fs();
    let text = human_review::format(&review_output(&fs, Some("b")));
    assert!(text.starts_with("Lane review\nscope: b\nrepo: /repo\nstorage: /repo/.lane\n"));
    assert!(text.contains(
        "summary: 1 lane, 2 changed paths, 1 clean op, 1 conflicted op, 1 conflict group\n"
    ));
    assert!(text.contains("\ng.txt\n  |- lanes\n  |  - b modified, 1 op (1 clean, 0 conflicted), 2 B -> 3 B\n"));
    assert!(text.contains("     - group 1 [0..3), lanes: b\n"));
    let empty = human_review::format(&review_output(
        &LaneFs::new(LaneRepo::new(), FileWorktree::new()),
        None,
    ));
    assert!(empty.contains("scope: all lanes\n"));
    assert!(empty.contains("\nNo changed paths.\n"));
}

#[test]
fn unknown_lanes_are_not_reviewed() {
    let fs = lane_fs();
    assert_eq!(message(review_lanes(&fs, Some("x"))), "LaneMissing(\"x\")");
    assert_eq!(review_lanes(&fs, None).unwrap(), vec!["a", "b"]);
    assert_eq!(collect_changes(&fs, "b").unwrap().len(), 2);
    let paths = vec!["g.txt".to_owned(), "none.txt".to_owned()];
    let changes = changes_for_paths(&fs, "b", &paths).unwrap();
    assert_eq!(changes.len(), 1);
    assert_eq!(changes[0].path, "g.txt");
}

#[test]
fn clean_work_is_accepted_and_conflicts_stay() {
    let mut fs = lane_fs();
    let accepted = accept_clean(&fs, "b").unwrap();
    assert_eq!(accepted.accepted_ops.len(), 1);
    assert_eq!(accepted.accepted_ops[0].path, "g.txt");
    assert_eq!(accepted.conflicts.len(), 1);
    fs.commit(accepted.promoted.unwrap());
    assert_eq!(fs.base_file("g.txt"), Some(&b"g2\n"[..]));
    let rest = collect_changes(&fs, "b").unwrap();
    assert_eq!(rest.len(), 1);
    assert!(rest[0].ops.iter().all(|op| !op.conflicts_with.is_empty()));
    let again = accept_clean(&fs, "b").unwrap();
    assert!(again.promoted.is_none());
}

#[test]
fn selected_operations_are_accepted() {
    let mut fs = lane_fs();
    let ops = vec!["a:2".to_owned()];
    let accepted = accept_ops(&fs, "a", "f.txt", &ops).unwrap();
    assert_eq!(accepted.accepted[0].ops.len(), 1);
    fs.commit(accepted.promoted);
    assert_eq!(fs.base_file("f.txt"), Some(&b"one\ntwo\nthree!\n"[..]));
    assert_eq!(
        fs.read_file("b", "f.txt").unwrap(),
        Some(b"XYZ\ntwo\nthree!\n".to_vec())
    );

    let replaced = accept_replacement_op(&fs, "a", "f.txt", "a:1", b"eins".to_vec()).unwrap();
    assert_eq!(replaced.accepted_op.op_id, "a:1");
    fs.commit(replaced.promoted);
    assert_eq!(fs.base_file("f.txt"), Some(&b"eins\ntwo\nthree!\n"[..]));
    assert_eq!(
        message(accept_ops(&fs, "a", "f.txt", &ops)),
        "OperationMissing { path: \"f.txt\", op_id: \"a:2\" }"
    );
    assert_eq!(discard(&mut fs, "b"), (true, 2));
    assert_eq!(discard(&mut fs, "b"), (false, 0));
}

#[test]
fn a_conflict_group_is_accepted_with_one_replacement() {
    let mut fs = lane_fs();
    let output = review_output(&fs, None);
    let group: Vec<String> = output.paths[0].conflicts[0]
        .ops
        .iter()
        .map(|op| op.op.op_id.clone())
        .collect();
    assert_eq!(group.len(), 2);
    let accepted = accept_replacement_ops(&fs, "f.txt", &group, b"QQ".to_vec()).unwrap();
    assert_eq!(
        accepted
            .accepted_ops
            .iter()
            .map(|op| op.op_id.clone())
            .collect::<Vec<_>>(),
        group
    );
    fs.commit(accepted.promoted);
    let base = fs.base_file("f.txt").unwrap().to_vec();
    assert_eq!(base, b"QQ\ntwo\nthree\n");
    assert_eq!(
        fs.read_file("a", "f.txt").unwrap().unwrap(),
        b"QQ\ntwo\nthree!\n"
    );
    assert_eq!(
        fs.read_file("b", "f.txt").unwrap().unwrap(),
        b"QQ\ntwo\nthree\n"
    );
    assert_eq!(fs.changed_paths("b").unwrap(), vec!["g.txt"]);
}

#[test]
fn operations_of_several_groups_are_not_combined() {
    let fs = lane_fs();
    let output = review_output(&fs, None);
    let clean = output.paths[0].clean_ops[0].op.op_id.clone();
    let conflicted = output.paths[0].conflicts[0].ops[1].op.op_id.clone();
    let refused = accept_replacement_ops(&fs, "f.txt", &vec![clean, conflicted], vec![]);
    assert_eq!(
        message(refused),
        "accept can only combine ops from one conflict group: the selected operations are not in \
         one group"
    );
    let missing = vec!["a:99".to_owned(), "b:1".to_owned()];
    assert!(accept_replacement_ops(&fs, "f.txt", &missing, vec![]).is_err());
    let alone = vec!["a:1".to_owned()];
    assert_eq!(
        message(accept_replacement_ops(&fs, "f.txt", &alone, vec![])),
        "accept requires at least two --op values from one conflict group"
    );
}

#[test]
fn a_deletion_is_combined_with_an_edit() {
    let mut repo = LaneRepo::new();
    for lane in ["a", "b", "c"] {
        repo.create_lane(lane).unwrap();
    }
    let base: &[u8] = b"one\n";
    repo.delete_path("f", "a", Some(base)).unwrap();
    repo.replace_path("f", "b", Some(base), Some(b"two\n".to_vec()))
        .unwrap();
    repo.replace_path("f", "c", Some(base), Some(b"one\nmore\n".to_vec()))
        .unwrap();
    let edit = repo.change_ops("f", "b", Some(base)).unwrap()[0]
        .op_id
        .clone();
    let picks = vec![
        LaneOpSelection {
            lane: "a".to_owned(),
            op_id: "a:delete".to_owned(),
        },
        LaneOpSelection {
            lane: "b".to_owned(),
            op_id: edit,
        },
    ];
    let promoted = repo
        .combine_ops_path("f", Some(base), &picks, b"both\n".to_vec())
        .unwrap();
    assert_eq!(promoted, Some(b"both\n".to_vec()));
    let base = promoted.as_deref();
    assert_eq!(repo.read_path("f", "a", base).unwrap(), promoted);
    assert_eq!(
        repo.read_path("f", "c", base).unwrap(),
        Some(b"one\nmore\n".to_vec())
    );
    assert_eq!(
        repo.combine_ops_path("f", base, &vec![], vec![]),
        Err(LaneError::EmptyOperationSelection)
    );
    assert_eq!(
        repo.combine_ops_path("f", base, &picks, vec![]),
        Err(LaneError::OperationMissing {
            path: "f".to_owned(),
            op_id: "a:delete".to_owned()
        })
    );
}

#[test]
fn diffs_are_unified() {
    let fs = lane_fs();
    let change = fs.change_for_path("b", "g.txt").unwrap().unwrap();
    assert_eq!(
        format_diff("b", &change),
        "--- base/g.txt\n+++ b/g.txt\n@@ -1 +1 @@\n-g\n+g2\n"
    );
    let mut binary = fs;
    binary.write_file("b", "g.txt", vec![0xff]).unwrap();
    let change = binary.change_for_path("b", "g.txt").unwrap().unwrap();
    assert_eq!(format_diff("b", &change), "binary files differ: g.txt\n");
}

#[test]
fn previews_show_length_digest_and_text() {
    let preview = byte_preview(b"a\"b\n");
    assert_eq!(preview.len, 4);
    assert_eq!(preview.utf8, Some("a\"b\n".to_owned()));
    assert!(!preview.truncated);
    assert_eq!(preview_label(&preview), "\"a\\\"b\\n\"");
    assert_eq!(preview_label(&byte_preview(b"")), "<empty>");
    assert_eq!(
        preview_label(&byte_preview(&[0xff])),
        "<binary 1 B, sha256 a8100ae6aa19>"
    );
    let long = byte_preview(&[b'x'; 5000]);
    assert!(long.truncated);
    assert_eq!(long.utf8.unwrap().len(), 4096);
}

#[test]
fn labels_read_well() {
    assert_eq!(count_label(1, "op"), "1 op");
    assert_eq!(count_label(0, "op"), "0 ops");
    assert_eq!(bytes_label(1), "1 B");
    let command = vec!["accept".to_owned(), "it's".to_owned(), "<replacement-file>".to_owned()];
    assert_eq!(format_command(&command), "lane accept 'it''s' <replacement-file>");
    assert_eq!(one_line_preview("\n  first \nsecond"), "\"first\"");
    assert_eq!(last_exec_label(&None), "last exec unavailable");
    let state = LaneRunState::new(Some(2), None, "", " bad\n", vec![]);
    assert_eq!(
        last_exec_label(&Some(state.copy())),
        "last exec exit 2, exec touched 0 paths"
    );
    assert_eq!(
        last_exec_detail(&Some(state)),
        Some("stderr: \"bad\"".to_owned())
    );
    let fs = lane_fs();
    let ops = fs.change_for_path("b", "g.txt").unwrap().unwrap().ops;
    assert!(op_label(&ops[0]).contains("b:1"));
}

#[test]
fn review_requests_are_told_apart() {
    let named = |s: &str| Some(s.to_owned());
    assert_eq!(
        review_target(true, false, None, vec![]).unwrap(),
        ReviewRequest::History
    );
    assert_eq!(
        message(review_target(true, true, None, vec![])),
        "review --history cannot be combined with a target, detail args, or --diff"
    );
    assert_eq!(
        review_target(false, false, None, vec![]).unwrap(),
        ReviewRequest::AllLanes
    );
    assert_eq!(
        message(review_target(false, true, None, vec![])),
        "review --diff requires a lane target"
    );
    assert_eq!(
        message(review_target(false, false, None, vec!["p".to_owned()])),
        "review detail requires a target"
    );
    assert_eq!(
        review_target(false, false, named("a"), vec![]).unwrap(),
        ReviewRequest::Named {
            target: "a".to_owned()
        }
    );
    assert_eq!(
        review_target(false, true, named("a"), vec!["p".to_owned()]).unwrap(),
        ReviewRequest::Diff {
            lane: "a".to_owned(),
            paths: vec!["p".to_owned()]
        }
    );
    assert_eq!(
        review_target(false, false, named("a"), vec!["p".to_owned(), "a:1".to_owned()]).unwrap(),
        ReviewRequest::Detail {
            lane: "a".to_owned(),
            path: "p".to_owned(),
            op_id: "a:1".to_owned()
        }
    );
    assert!(message(review_target(false, false, named("a"), vec!["p".to_owned()]))
        .starts_with("review detail accepts either"));
    assert_eq!(resolve_target("review", "x", true, false).unwrap(), Named::Run);
    assert_eq!(
        message(resolve_target("review", "x", true, true)),
        "review target \"x\" is both a run and a lane"
    );
    assert_eq!(
        message(discard_target("x", false, false)),
        "discard target \"x\" is neither a run nor a lane"
    );
}

#[test]
fn accept_requests_are_told_apart() {
    let s = |text: &str| text.to_owned();
    assert_eq!(
        accept_target(s("a"), None, vec![], vec![], None).unwrap(),
        AcceptRequest::Clean { lane: s("a") }
    );
    assert_eq!(
        accept_target(s("a"), Some(s("p")), vec![s("a:1")], vec![], None).unwrap(),
        AcceptRequest::Ops {
            lane: s("a"),
            path: s("p"),
            ops: vec![s("a:1")]
        }
    );
    assert_eq!(
        accept_target(s("a"), Some(s("p")), vec![s("a:1")], vec![], Some(s("w"))).unwrap(),
        AcceptRequest::Replacement {
            lane: s("a"),
            path: s("p"),
            op_id: s("a:1"),
            with_file: s("w")
        }
    );
    let group = vec![s("a:1"), s("b:1")];
    assert_eq!(
        accept_target(s("p"), None, vec![], group.clone(), Some(s("w"))).unwrap(),
        AcceptRequest::Group {
            path: s("p"),
            ops: group.clone(),
            with_file: s("w")
        }
    );
    for (result, text) in [
        (
            accept_target(s("p"), None, vec![], group.clone(), None),
            "accept with --op requires --with-file",
        ),
        (
            accept_target(s("a"), None, vec![], vec![], Some(s("w"))),
            "accept <lane> cannot use --with-file without <path> <op-id>",
        ),
        (
            accept_target(s("a"), None, vec![s("a:1")], vec![], None),
            "accept operation args require a path",
        ),
        (
            accept_target(s("a"), Some(s("p")), vec![], vec![], None),
            "accept <lane> <path> requires at least one operation id",
        ),
        (
            accept_target(s("a"), Some(s("p")), vec![s("a:1"), s("a:2")], vec![], Some(s("w"))),
            "accept replacement for multiple operations requires --op <lane:op> selections",
        ),
    ] {
        assert_eq!(message(result), text);
    }
    let selections = parse_lane_op_selections(&group).unwrap();
    assert_eq!(selections[1].lane, "b");
    assert_eq!(selections[1].op_id, "b:1");
    assert_eq!(
        message(parse_lane_op_selections(&vec![s("a:1")])),
        "accept requires at least two --op values from one conflict group"
    );
    assert_eq!(
        message(parse_lane_op_selections(&vec![s("a:1"), s("b")])),
        "accept --op value must be lane-qualified: b"
    );
    let error = LaneFsError::Lane(LaneError::InvalidOperationSelection {
        path: s("p"),
        reason: s("apart"),
    });
    assert_eq!(
        accept_replacement_ops_cli_error(&error).text(),
        "accept can only combine ops from one conflict group: apart"
    );
}

#[test]
fn runs_reserve_fresh_lanes() {
    assert_eq!(
        message(validate_run_request("  ", 1)),
        "run name cannot be empty"
    );
    assert_eq!(
        message(validate_run_request("x", 0)),
        "attempts must be greater than zero"
    );
    let lanes = attempt_lanes("login", 3).unwrap();
    assert_eq!(lanes, vec!["login-1", "login-2", "login-3"]);
    let mut repo = LaneRepo::new();
    reserve_attempt_lanes(&mut repo, &lanes).unwrap();
    assert_eq!(repo.lane_ids(), vec!["login-1", "login-2", "login-3"]);
    assert_eq!(
        message(reserve_attempt_lanes(&mut repo, &lanes)),
        "attempt lanes already exist: login-1, login-2, login-3"
    );
    assert_eq!(message(attempt_lanes(" x", 1)), "InvalidLane(\" x-1\")");
    assert_eq!(run_file_name("a/b"), "a~2fb.json");
    assert!(ensure_run_is_new("x", false).is_ok());
    assert_eq!(
        message(ensure_run_is_new("x", true)),
        "run \"x\" already exists"
    );
}

#[test]
fn attempts_are_judged() {
    let good = attempt(1, "login-1", Some(0));
    let bad = attempt(2, "login-2", Some(1));
    let lost = AttemptRecord::thread_panic("check", 3, "login-3");
    assert!(good.ok());
    assert!(!bad.ok());
    assert_eq!(
        lost.orchestration_error,
        Some("check thread panicked".to_owned())
    );
    let sorted = sorted_attempts(vec![lost, bad, good]);
    let order: Vec<usize> = sorted.iter().map(|a| a.index).collect();
    assert_eq!(order, vec![1, 2, 3]);
    assert!(run_failed(&sorted));
    assert!(check_failed(&sorted));
    assert!(!run_failed(&vec![attempt(2, "x", Some(1))]));
    let mut run = run_record(sorted);
    assert_eq!(check_name(None, &run), "check-1");
    assert_eq!(check_name(Some("test"), &run), "test");
    assert!(ensure_run_version("login", &run).is_ok());
    run.version = 9;
    assert_eq!(
        message(ensure_run_version("login", &run)),
        "run \"login\" has version 9; expected 1"
    );
}

#[test]
fn attempts_are_compared() {
    let fs = lane_fs();
    let review = review_output(&fs, None);
    let run = append_check(
        run_record(vec![attempt(1, "a", Some(0)), attempt(2, "b", Some(3))]),
        CheckRecord {
            name: "test".to_owned(),
            command: vec!["t".to_owned()],
            attempts: vec![attempt(1, "a", Some(1)), attempt(2, "b", Some(0))],
        },
    );
    let attempts = compare_attempts(&run, &review.lanes);
    assert_eq!(attempts.len(), 2);
    assert!(attempts[0].attempt_ok);
    assert_eq!((attempts[0].checks_passed, attempts[0].checks_failed), (0, 1));
    assert_eq!((attempts[1].checks_passed, attempts[1].checks_failed), (1, 0));
    assert_eq!(attempts[1].changed_paths, 2);
    let text = format_compare(&CompareOutput {
        repo_root: "/repo".to_owned(),
        storage_path: "/repo/.lane".to_owned(),
        run,
        attempts,
        review,
    });
    assert!(text.starts_with("Lane compare\nrun: login\n"));
    assert!(text.contains("summary: 2 attempts, 1 check, 2 changed paths, 2 clean ops, 1 conflict group\n"));
    assert!(text.contains(
        "  - a: attempt ok, checks 0/1, 1 changed path, 1 clean op, 1 conflicted op\n"
    ));
    assert!(text.contains("\nChecks\n  - test\n    a: exit 1\n    b: ok\n"));
    assert!(text.contains("\nNeeds decision\n  - f.txt group 1 [0..3), lanes: a, b\n"));
}

#[test]
fn runs_are_listed_and_discarded() {
    let mut fs = lane_fs();
    let run = append_check(
        run_record(vec![attempt(1, "a", Some(0)), attempt(2, "gone", None)]),
        CheckRecord {
            name: "test".to_owned(),
            command: vec![],
            attempts: vec![],
        },
    );
    let runs = vec![run];
    let listed = run_history(&runs);
    let run = &runs[0];
    assert_eq!(
        (listed[0].name.as_str(), listed[0].attempts, listed[0].checks),
        ("login", 2, 1)
    );
    assert_eq!(run_lanes(run), vec!["a", "gone"]);
    let discarded = discard_run(&mut fs, run);
    assert_eq!(discarded.lanes, vec!["a"]);
    assert_eq!(discarded.changes, vec![1, 0]);
    assert_eq!(fs.repo().lane_ids(), vec!["b"]);
}

#[test]
fn the_numbers_of_a_review_add_up() {
    let output = review_output(&lane_fs(), None);
    let summary = &output.summary;
    assert_eq!(summary.lanes, output.lanes.len());
    assert_eq!(summary.changed_paths, output.paths.len());
    let clean: usize = output.lanes.iter().map(|lane| lane.clean_ops).sum();
    assert_eq!(summary.clean_ops, clean);
    let conflicted: usize = output.lanes.iter().map(|lane| lane.conflicted_ops).sum();
    assert_eq!(summary.conflicted_ops, conflicted);
    let groups: usize = output.paths.iter().map(|path| path.conflicts.len()).sum();
    assert_eq!(summary.conflict_groups, groups);
    let mut grouped = 0;
    for path in &output.paths {
        for op in &path.clean_ops {
            assert!(op.op.conflicts_with.is_empty());
        }
        for group in &path.conflicts {
            grouped += group.ops.len();
            for op in &group.ops {
                assert!(!op.op.conflicts_with.is_empty());
            }
        }
    }
    assert_eq!(summary.conflicted_ops, grouped);
    assert!(summary.conflicted_ops > 0 && summary.clean_ops > 0);
    assert!(output.paths.windows(2).all(|pair| pair[0].path < pair[1].path));
    assert!(output.lanes.windows(2).all(|pair| pair[0].lane < pair[1].lane));
}
