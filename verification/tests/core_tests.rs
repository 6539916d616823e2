//! Operations, order keys, names and texts.
use lane::conflict::{normalize_ops_checked, op_kind, ops_conflict, validate_ops};
use lane::diff::{diff_to_ops, is_probably_binary};
use lane::numbers::{decimal, hex, padded_decimal, parse_u64, signed_decimal};
use lane::op_id::{op_id_for, order_key, parse_lane_op_id, ParsedOpId};
use lane::ops::{render_ops, FileOp};
use lane::order_key::{first_fractional_key, fractional_key_between, is_valid_order_key};
use lane::path_label::{git_path_label, path_label};
use lane::projection::{NewlineStyle, ProjectionMode};
use lane::rebase::{rebase_ops_after_promotion, RebaseOpSet};
use lane::text::{rsplit_once, split, trim};
use lane::text_map::TextMap;
use lane::{
    ensure_user_lane, DecodeError, FilePath, LaneError, LaneId, LaneOpKind, LaneRepo,
    LaneRunState, LaneTextPreview, SourceProjection,
};

fn op(id: u64, start: u64, len: u64, inserted: &[u8]) -> FileOp {
    FileOp {
        id,
        base_start: start,
        base_len: len,
        order_key: first_fractional_key(),
        inserted: inserted.to_vec(),
    }
}

#[test]
fn diffs_are_minimal_for_text_and_coarse_for_binary() {
    let ops = diff_to_ops(b"a=1\nb=2\n", b"a=10\nc=2\n", false);
    assert_eq!(ops.len(), 2);
    assert_eq!((ops[0].base_start, ops[0].base_len), (3, 0));
    assert_eq!(ops[0].inserted, b"0");
    assert_eq!((ops[1].base_start, ops[1].base_len), (4, 1));
    assert_eq!(ops[1].inserted, b"c");
    assert!(ops[0].order_key < ops[1].order_key);

    assert!(is_probably_binary(b"a\0b"));
    let coarse = diff_to_ops(b"a\0b", b"a\0c", false);
    assert_eq!(coarse.len(), 1);
    assert_eq!((coarse[0].base_start, coarse[0].base_len), (0, 3));
    assert_eq!(diff_to_ops(b"", b"new", true).len(), 1);
    assert!(diff_to_ops(b"same", b"same", false).is_empty());
}

#[test]
fn rendering_applies_operations_in_order() {
    let ops = vec![op(2, 4, 1, b"Y"), op(1, 0, 1, b"XX")];
    assert_eq!(render_ops("p", b"a=b c", &ops).unwrap(), b"XX=b Y");
    assert_eq!(
        render_ops("p", b"abc", &vec![op(1, u64::MAX, 1, b"")]),
        Err(LaneError::OperationOutOfBounds {
            path: "p".to_owned()
        })
    );
    assert_eq!(
        render_ops("p", b"abc", &vec![op(1, 2, 5, b"")]),
        Err(LaneError::OperationConflict {
            path: "p".to_owned()
        })
    );
    assert_eq!(
        render_ops("p", b"abcdef", &vec![op(1, 0, 3, b""), op(2, 2, 2, b"")]),
        Err(LaneError::OperationConflict {
            path: "p".to_owned()
        })
    );
}

#[test]
fn stored_operations_are_checked() {
    assert_eq!(
        validate_ops(&vec![op(1, 0, 3, b""), op(2, 2, 2, b"")]),
        Err(DecodeError::OperationConflict)
    );
    let mut odd = op(1, 0, 1, b"");
    odd.order_key = "a!".to_owned();
    assert_eq!(validate_ops(&vec![odd]), Err(DecodeError::InvalidOrderKey));
    assert_eq!(
        validate_ops(&vec![op(1, u64::MAX, 1, b"")]),
        Err(DecodeError::OperationOutOfBounds)
    );
    let kept = normalize_ops_checked(vec![op(1, 0, 0, b""), op(2, 3, 1, b"x")]).unwrap();
    assert_eq!(kept.len(), 1);
    assert_eq!(kept[0].id, 2);
}

#[test]
fn conflicts_are_overlaps() {
    assert!(ops_conflict(&op(1, 0, 4, b"a"), &op(1, 2, 4, b"b"), false));
    assert!(!ops_conflict(&op(1, 0, 4, b"a"), &op(1, 4, 4, b"b"), false));
    assert!(!ops_conflict(&op(1, 2, 0, b"a"), &op(1, 2, 0, b"b"), false));
    assert!(ops_conflict(&op(1, 0, 0, b"a"), &op(1, 0, 0, b"b"), true));
    assert!(ops_conflict(&op(1, 2, 4, b"b"), &op(1, 0, 4, b"a"), false));
    assert!(!ops_conflict(&op(1, 4, 4, b"b"), &op(1, 0, 4, b"a"), false));
    assert_eq!(op_kind(&op(1, 0, 0, b"a"), true), LaneOpKind::Create);
    assert_eq!(op_kind(&op(1, 0, 0, b"a"), false), LaneOpKind::Insert);
    assert_eq!(op_kind(&op(1, 0, 2, b""), false), LaneOpKind::Delete);
    assert_eq!(op_kind(&op(1, 0, 2, b"a"), false), LaneOpKind::Replace);
}

#[test]
fn order_keys_lie_between() {
    let first = first_fractional_key();
    assert!(is_valid_order_key(&first));
    let after = fractional_key_between(Some(&first), None);
    let between = fractional_key_between(Some(&first), Some(&after));
    assert!(first < between && between < after);
    let before = fractional_key_between(None, Some(&first));
    assert!(before < first);
    assert!(!is_valid_order_key(""));
    assert!(!is_valid_order_key("a-"));
}

#[test]
fn operation_names_are_read_back() {
    let insert = op(2, 23, 0, b"0");
    assert_eq!(op_id_for("agent-a", &insert), "agent-a:2");
    assert_eq!(
        parse_lane_op_id("agent-a", "agent-a:2"),
        Some(ParsedOpId::Present(2))
    );
    assert_eq!(
        parse_lane_op_id("agent-a", "agent-a:delete"),
        Some(ParsedOpId::Delete)
    );
    assert_eq!(parse_lane_op_id("agent-a", "agent-b:2"), None);
    assert_eq!(parse_lane_op_id("agent-a", "agent-a:x"), None);
    assert!(order_key("agent-a", &insert).starts_with("00000000000000000023:"));
    assert!(order_key("agent-a", &insert).ends_with(":agent-a:00000000000000000002"));
}

#[test]
fn errors_describe_themselves() {
    let quoted = LaneError::LaneMissing("a\"b\n".to_owned());
    assert_eq!(quoted.message(), "lane \"a\\\"b\\n\" does not exist");
    assert_eq!(quoted.debug_label(), format!("{quoted:?}"));
    for error in [
        LaneError::InvalidPath("missing path".to_owned()),
        LaneError::InvalidLane(" ".to_owned()),
        LaneError::ReservedLane("base".to_owned()),
        LaneError::BaseChanged { path: "p".to_owned() },
        LaneError::BaseMissing { path: "p".to_owned() },
        LaneError::OperationOutOfBounds { path: "p".to_owned() },
        LaneError::OperationConflict { path: "p".to_owned() },
        LaneError::EmptyOperationSelection,
        LaneError::InvalidOperationSelection {
            path: "p".to_owned(),
            reason: "r".to_owned(),
        },
        LaneError::OperationMissing {
            path: "p".to_owned(),
            op_id: "a:1".to_owned(),
        },
    ] {
        assert_eq!(error.debug_label(), format!("{error:?}"));
    }
    assert_eq!(
        LaneError::OperationMissing {
            path: "p".to_owned(),
            op_id: "a:1".to_owned(),
        }
        .message(),
        "operation \"a:1\" does not exist for p"
    );
    assert_eq!(
        DecodeError::OverlayLaneMissing("x".to_owned()).message(),
        "stored overlay references missing lane \"x\""
    );
}

#[test]
fn lane_names_are_checked() {
    assert!(ensure_user_lane("agent-a").is_ok());
    assert_eq!(
        ensure_user_lane("base"),
        Err(LaneError::ReservedLane("base".to_owned()))
    );
    assert_eq!(
        LaneId::parse(" a").unwrap_err(),
        LaneError::InvalidLane(" a".to_owned())
    );
    assert_eq!(LaneId::parse("a b").unwrap().into_string(), "a b");
    let mut repo = LaneRepo::new();
    assert_eq!(repo.create_lane("x"), Ok(true));
    assert_eq!(repo.create_lane("x"), Ok(false));
    assert_eq!(
        repo.create_lane(""),
        Err(LaneError::InvalidLane(String::new()))
    );
    assert!(repo.discard_lane("x"));
    assert!(!repo.discard_lane("x"));
}

#[test]
fn paths_have_a_normal_form() {
    let path = FilePath::parse("./a//b\\c/.").unwrap();
    assert_eq!(path.as_str(), "a/b/c");
    assert_eq!(FilePath::normalize_label(path.as_str()).unwrap(), "a/b/c");
    for (raw, reason) in [
        ("", "missing path"),
        (".", "missing path"),
        ("C:\\x", "path must be repo-relative"),
        ("a/../b", "path must stay inside the repo"),
        ("a/\0", "path must stay inside the repo"),
        ("./.lane", "cannot project lane state files"),
        (".Git", "cannot project git metadata files"),
    ] {
        assert_eq!(
            FilePath::parse(raw).unwrap_err(),
            LaneError::InvalidPath(reason.to_owned())
        );
    }
    // A normal form may look absolute, and is then refused.
    assert_eq!(FilePath::normalize_label("./C:/x").unwrap(), "C:/x");
    assert_eq!(
        FilePath::normalize_label("C:/x").unwrap_err(),
        "path must be repo-relative"
    );
    assert_eq!(FilePath::parse_label("").unwrap().into_string(), "");
}

#[test]
fn run_states_keep_the_beginning_of_output() {
    let long = "x".repeat(4095) + "\u{e9}";
    let preview = LaneTextPreview::from_text(&long);
    assert!(preview.truncated);
    assert_eq!(preview.text.len(), 4095);
    let state = LaneRunState::new(
        Some(1),
        None,
        "out",
        "err",
        vec![FilePath::parse("a.txt").unwrap()],
    );
    assert!(!state.stdout.truncated);
    let mut repo = LaneRepo::new();
    repo.create_lane("a").unwrap();
    repo.record_last_exec("a", state.copy()).unwrap();
    assert_eq!(repo.last_exec("a").unwrap(), Some(&state));
    assert_eq!(
        repo.last_exec("b"),
        Err(LaneError::LaneMissing("b".to_owned()))
    );
    let loaded = LaneRepo::from_storage_snapshot(repo.storage_snapshot()).unwrap();
    assert_eq!(loaded.last_exec("a").unwrap(), Some(&state));
}

#[test]
fn line_endings_are_projected() {
    assert_eq!(NewlineStyle::detect(b"a\r\nb"), NewlineStyle::Crlf);
    assert_eq!(NewlineStyle::detect(b"a\rb"), NewlineStyle::Cr);
    assert_eq!(NewlineStyle::detect(b"ab"), NewlineStyle::Lf);
    assert_eq!(ProjectionMode::for_bytes(b"\xff"), ProjectionMode::Raw);
    let source = SourceProjection::from_worktree(b"a\r\nb\r\n".to_vec());
    assert_eq!(source.bytes(), b"a\nb\n");
    assert_eq!(source.materialize(b"a\nc\n"), b"a\r\nc\r\n");
    assert_eq!(source.materialize(source.bytes()), b"a\r\nb\r\n");
    assert_eq!(source.project_edit(b"x\ry".to_vec()), b"x\ny");
    let raw = SourceProjection::from_worktree(b"a\r\0".to_vec());
    assert_eq!(raw.bytes(), b"a\r\0");
    assert_eq!(raw.into_bytes(), b"a\r\0");
}

#[test]
fn numbers_are_written_and_read() {
    assert_eq!(decimal(0), "0");
    assert_eq!(decimal(u64::MAX), "18446744073709551615");
    assert_eq!(padded_decimal(42, 5), "00042");
    assert_eq!(signed_decimal(i32::MIN), "-2147483648");
    assert_eq!(parse_u64("18446744073709551616"), None);
    assert_eq!(parse_u64("007"), Some(7));
    assert_eq!(hex(&[0, 255, 16]), "00ff10");
}

#[test]
fn texts_are_taken_apart() {
    assert_eq!(split("a//b", '/'), vec!["a", "", "b"]);
    assert_eq!(trim(" \t x y\u{a0}"), "x y");
    assert_eq!(
        rsplit_once("a:b:c", ':'),
        Some(("a:b".to_owned(), "c".to_owned()))
    );
    assert_eq!(rsplit_once("abc", ':'), None);
}

#[test]
fn maps_keep_their_keys_in_order() {
    let mut map: TextMap<u32> = TextMap::new();
    for (key, value) in [("b", 2), ("a", 1), ("c", 3), ("b", 4)] {
        map.insert(key.to_owned(), value);
    }
    assert_eq!(map.len(), 3);
    assert_eq!(map.key_at(0), "a");
    assert_eq!(map.get("b"), Some(&4));
    assert_eq!(map.remove("a"), Some(1));
    assert_eq!(map.remove("a"), None);
    let entries = map.into_entries();
    assert_eq!(
        entries,
        vec![("b".to_owned(), 4), ("c".to_owned(), 3)]
    );
}

#[test]
fn long_path_marks_are_not_shown() {
    assert_eq!(path_label("\\\\?\\C:\\x", true), "C:\\x");
    assert_eq!(path_label("\\\\?\\UNC\\s\\x", true), "\\\\s\\x");
    assert_eq!(path_label("/a/b", false), "/a/b");
    assert_eq!(git_path_label("\\\\?\\C:\\x", true), "C:/x");
}

#[test]
fn rebasing_the_rest_of_a_lane_keeps_its_view() {
    let base = b"one two three four";
    let full = b"1 two 3 and four!";
    let listed = diff_to_ops(base, full, false);
    assert!(listed.len() >= 3);
    let mut promoted: Vec<FileOp> = Vec::new();
    let mut rest: Vec<FileOp> = Vec::new();
    for (i, op) in diff_to_ops(base, full, false).into_iter().rev().enumerate() {
        if i % 2 == 0 {
            rest.push(op);
        } else {
            promoted.push(op);
        }
    }
    let next = render_ops("f", base, &promoted).unwrap();
    let moved = rebase_ops_after_promotion(
        "f",
        RebaseOpSet { lane: "a", ops: &rest },
        RebaseOpSet { lane: "a", ops: &promoted },
    )
    .unwrap();
    assert_eq!(render_ops("f", &next, &moved).unwrap(), full);
    assert_eq!(moved.len(), rest.len());
    for (now, was) in moved.iter().zip(&rest) {
        assert_eq!(now.id, was.id);
        assert_eq!(now.base_len, was.base_len);
        assert_eq!(now.order_key, was.order_key);
        assert_eq!(now.inserted, was.inserted);
    }
}
