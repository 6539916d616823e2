//! The laws of lanes on concrete values.
use lane::{LaneError, LaneOpKind, LaneRepo};

const BASE: &[u8] = b"one\ntwo\nthree\n";

fn repo() -> LaneRepo {
    let mut repo = LaneRepo::new();
    for lane in ["a", "b", "c"] {
        repo.create_lane(lane).unwrap();
    }
    repo
}

fn edit(repo: &mut LaneRepo, lane: &str, content: &[u8]) {
    repo.replace_path("f", lane, Some(BASE), Some(content.to_vec()))
        .unwrap();
}

fn seen(repo: &LaneRepo, lane: &str, base: &[u8]) -> Vec<u8> {
    repo.read_path("f", lane, Some(base)).unwrap().unwrap()
}

#[test]
fn the_base_is_untouched() {
    let mut repo = repo();
    edit(&mut repo, "a", b"changed");
    assert_eq!(seen(&repo, "base", BASE), BASE);
}

#[test]
fn lanes_are_isolated() {
    let mut repo = repo();
    edit(&mut repo, "a", b"one\nTWO\nthree\n");
    assert_eq!(seen(&repo, "b", BASE), BASE);
    assert_eq!(
        repo.read_path("other", "a", Some(b"x")).unwrap(),
        Some(b"x".to_vec())
    );
}

#[test]
fn base_content_clears_the_overlay() {
    let mut repo = repo();
    edit(&mut repo, "a", b"changed");
    edit(&mut repo, "a", BASE);
    assert!(repo.overlay_paths("a").unwrap().is_empty());
    assert_eq!(repo, self::repo());
}

#[test]
fn a_changed_base_is_refused_everywhere() {
    let mut repo = repo();
    edit(&mut repo, "a", b"changed");
    let refused = LaneError::BaseChanged {
        path: "f".to_owned(),
    };
    let moved: Option<&[u8]> = Some(b"moved");
    assert_eq!(repo.read_path("f", "a", moved), Err(refused.clone()));
    assert_eq!(repo.change_ops("f", "a", moved), Err(refused.clone()));
    assert_eq!(
        repo.replace_path("f", "b", moved, None),
        Err(refused.clone())
    );
    assert_eq!(
        repo.promote_ops_path("f", "a", moved, &vec!["a:1".to_owned()]),
        Err(refused)
    );
}

#[test]
fn discarding_takes_one_lane_only() {
    let mut repo = repo();
    edit(&mut repo, "a", b"A");
    edit(&mut repo, "b", b"B");
    repo.discard_lane("a");
    assert_eq!(repo.lane_ids(), vec!["b", "c"]);
    assert_eq!(
        repo.read_path("f", "a", Some(BASE)),
        Err(LaneError::LaneMissing("a".to_owned()))
    );
    assert_eq!(seen(&repo, "b", BASE), b"B");
}

#[test]
fn clean_edits_compose_and_conflicting_ones_keep_their_bytes() {
    let mut repo = repo();
    edit(&mut repo, "a", b"ONE\ntwo\nthree\n");
    edit(&mut repo, "b", b"one\ntwo\nTHREE\n");
    edit(&mut repo, "c", b"uno\ntwo\nthree\n");
    let promoted = repo.promote_path("f", "a", Some(BASE)).unwrap().unwrap();
    assert_eq!(promoted, b"ONE\ntwo\nthree\n");
    assert_eq!(seen(&repo, "a", &promoted), promoted);
    assert_eq!(seen(&repo, "b", &promoted), b"ONE\ntwo\nTHREE\n");
    assert_eq!(seen(&repo, "c", &promoted), b"uno\ntwo\nthree\n");
    assert!(repo.overlay_paths("a").unwrap().is_empty());
}

#[test]
fn the_own_view_survives_a_partial_promotion() {
    let mut repo = repo();
    let content = b"one!\ntwo\nthree!\n";
    edit(&mut repo, "a", content);
    let ops = repo.change_ops("f", "a", Some(BASE)).unwrap();
    assert_eq!(ops.len(), 2);
    let promoted = repo
        .promote_ops_path("f", "a", Some(BASE), &vec![ops[1].op_id.clone()])
        .unwrap()
        .unwrap();
    assert_eq!(promoted, b"one\ntwo\nthree!\n");
    assert_eq!(seen(&repo, "a", &promoted), content);
    assert_eq!(seen(&repo, "c", &promoted), promoted);
}

#[test]
fn promotion_is_local_to_its_path() {
    let mut repo = repo();
    edit(&mut repo, "a", b"changed");
    repo.replace_path("g", "a", Some(b"g"), Some(b"G".to_vec()))
        .unwrap();
    repo.promote_path("f", "a", Some(BASE)).unwrap();
    assert_eq!(
        repo.read_path("g", "a", Some(b"g")).unwrap(),
        Some(b"G".to_vec())
    );
}

#[test]
fn stored_state_is_the_same_state() {
    let mut repo = repo();
    edit(&mut repo, "a", b"one\nTWO\nthree\n");
    repo.delete_path("g", "b", Some(b"g")).unwrap();
    let loaded = LaneRepo::from_storage_snapshot(repo.storage_snapshot()).unwrap();
    assert_eq!(loaded, repo);
}

#[test]
fn empty_selections_and_unknown_operations_are_refused() {
    let mut repo = repo();
    edit(&mut repo, "a", b"changed");
    let before = repo.copy();
    assert_eq!(
        repo.promote_ops_path("f", "a", Some(BASE), &Vec::new()),
        Err(LaneError::EmptyOperationSelection)
    );
    let missing = LaneError::OperationMissing {
        path: "f".to_owned(),
        op_id: "a:delete".to_owned(),
    };
    assert_eq!(
        repo.promote_ops_path("f", "a", Some(BASE), &vec!["a:delete".to_owned()]),
        Err(missing.clone())
    );
    assert_eq!(
        repo.op_detail("f", "a", Some(BASE), "a:delete").unwrap_err(),
        missing
    );
    assert_eq!(repo, before);
}

#[test]
fn deletions_are_promoted() {
    let mut repo = repo();
    repo.delete_path("f", "a", Some(BASE)).unwrap();
    edit(&mut repo, "b", b"B");
    assert_eq!(
        repo.change_ops("f", "a", Some(BASE)).unwrap()[0].op_id,
        "a:delete"
    );
    assert_eq!(repo.promote_path("f", "a", Some(BASE)).unwrap(), None);
    assert_eq!(repo.read_path("f", "c", None).unwrap(), None);
    assert_eq!(
        repo.read_path("f", "b", None).unwrap(),
        Some(b"B".to_vec())
    );
}

#[test]
fn an_empty_new_file_has_no_operation() {
    let mut repo = repo();
    repo.replace_path("n", "a", None, Some(Vec::new())).unwrap();
    assert!(repo.change_ops("n", "a", None).unwrap().is_empty());
    let files = repo
        .promote_lane("a", vec![("n".to_owned(), None)])
        .unwrap();
    assert_eq!(files.len(), 1);
    assert_eq!(files[0].bytes, None);
    assert_eq!(repo.overlay_paths("a").unwrap(), vec!["n"]);
}

#[test]
fn resolved_operations_use_the_given_bytes() {
    let mut repo = repo();
    edit(&mut repo, "a", b"one\nTWO\nthree\n");
    let op = repo.change_ops("f", "a", Some(BASE)).unwrap()[0].op_id.clone();
    let detail = repo.op_detail("f", "a", Some(BASE), &op).unwrap();
    assert_eq!(detail.base, b"two");
    assert_eq!(detail.inserted, b"TWO");
    let resolved = repo
        .resolve_op_path("f", "a", Some(BASE), &op, b"2".to_vec())
        .unwrap()
        .unwrap();
    assert_eq!(resolved, b"one\n2\nthree\n");
    assert_eq!(seen(&repo, "b", &resolved), resolved);
}

fn names(repo: &LaneRepo, lane: &str, base: &[u8]) -> Vec<String> {
    repo.change_ops("f", lane, Some(base))
        .unwrap()
        .iter()
        .map(|op| op.op_id.clone())
        .collect()
}

#[test]
fn a_partial_promotion_leaves_the_other_operations_in_order() {
    let mut repo = repo();
    edit(&mut repo, "a", b"one!!\nTWO\nthree!\n");
    let before = repo.change_ops("f", "a", Some(BASE)).unwrap();
    assert_eq!(names(&repo, "a", BASE), vec!["a:1", "a:2", "a:3"]);
    let promoted = repo
        .promote_ops_path("f", "a", Some(BASE), &vec!["a:2".to_owned()])
        .unwrap()
        .unwrap();
    let after = repo.change_ops("f", "a", Some(&promoted)).unwrap();
    assert_eq!(after.len(), 2);
    for (now, was) in [(&after[0], &before[0]), (&after[1], &before[2])] {
        assert_eq!(now.op_id, was.op_id);
        assert_eq!(now.inserted_len, was.inserted_len);
        assert_eq!(now.base_end - now.base_start, was.base_end - was.base_start);
    }
}

#[test]
fn reading_and_writing_fail_on_a_changed_base_only_where_there_is_an_overlay() {
    let mut repo = repo();
    let moved: Option<&[u8]> = Some(b"moved");
    assert_eq!(repo.read_path("f", "a", moved).unwrap(), Some(b"moved".to_vec()));
    edit(&mut repo, "a", b"changed");
    let refused = LaneError::BaseChanged {
        path: "f".to_owned(),
    };
    assert_eq!(repo.read_path("f", "b", moved), Err(refused.clone()));
    assert_eq!(repo.replace_path("f", "b", None, None), Err(refused));
    assert_eq!(
        repo.read_path("f", "none", moved),
        Err(LaneError::LaneMissing("none".to_owned()))
    );
    repo.discard_lane("a");
    assert_eq!(repo.read_path("f", "b", moved).unwrap(), Some(b"moved".to_vec()));
}

#[test]
fn details_of_listed_operations_make_the_view() {
    let mut repo = repo();
    let content = b"zero\none\nthree, four\n";
    edit(&mut repo, "a", content);
    let mut assembled: Vec<u8> = Vec::new();
    let mut cursor = 0;
    for op in repo.change_ops("f", "a", Some(BASE)).unwrap() {
        let detail = repo.op_detail("f", "a", Some(BASE), &op.op_id).unwrap();
        assert_eq!(detail.summary, op);
        let (start, end) = (op.base_start as usize, op.base_end as usize);
        assert_eq!(detail.base, BASE[start..end]);
        assert_eq!(detail.inserted.len() as u64, op.inserted_len as u64);
        assembled.extend_from_slice(&BASE[cursor..start]);
        assembled.extend_from_slice(&detail.inserted);
        cursor = end;
    }
    assembled.extend_from_slice(&BASE[cursor..]);
    assert_eq!(assembled, content);
}

#[test]
fn promoting_all_operations_makes_the_view_the_base() {
    let mut repo = repo();
    edit(&mut repo, "a", b"uno\ntwo\ntres\n");
    repo.delete_path("f", "b", Some(BASE)).unwrap();
    let all = names(&repo, "a", BASE);
    let promoted = repo
        .promote_ops_path("f", "a", Some(BASE), &all)
        .unwrap()
        .unwrap();
    assert_eq!(promoted, b"uno\ntwo\ntres\n");
    assert!(repo.overlay_paths("a").unwrap().is_empty());
    assert_eq!(seen(&repo, "a", &promoted), promoted);
    let all = names(&repo, "b", &promoted);
    assert_eq!(all, vec!["b:delete"]);
    let gone = repo
        .promote_ops_path("f", "b", Some(&promoted), &all)
        .unwrap();
    assert_eq!(gone, None);
    assert_eq!(repo.read_path("f", "b", None).unwrap(), None);
}

#[test]
fn a_resolved_operation_fills_its_range_and_leaves_the_others() {
    let mut repo = repo();
    edit(&mut repo, "a", b"one!\nTWO\nthree!\n");
    let ops = repo.change_ops("f", "a", Some(BASE)).unwrap();
    let promoted = repo
        .resolve_op_path("f", "a", Some(BASE), "a:2", b"2".to_vec())
        .unwrap()
        .unwrap();
    let (start, end) = (ops[1].base_start as usize, ops[1].base_end as usize);
    assert_eq!(promoted, [&BASE[..start], b"2", &BASE[end..]].concat());
    assert_eq!(names(&repo, "a", &promoted), vec!["a:1", "a:3"]);
    assert_eq!(
        repo.resolve_op_path("f", "a", Some(&promoted), "a:2", b"2".to_vec()),
        Err(LaneError::OperationMissing {
            path: "f".to_owned(),
            op_id: "a:2".to_owned()
        })
    );
    repo.delete_path("f", "b", Some(&promoted)).unwrap();
    assert_eq!(
        repo.resolve_op_path("f", "b", Some(&promoted), "b:delete", b"kept".to_vec())
            .unwrap(),
        Some(b"kept".to_vec())
    );
    assert!(repo.overlay_paths("b").unwrap().is_empty());
}

#[test]
fn written_content_is_listed_as_its_difference() {
    let mut repo = repo();
    let content = b"ONE\nthree\nfour\n";
    edit(&mut repo, "a", content);
    let ops = repo.change_ops("f", "a", Some(BASE)).unwrap();
    assert!(!ops.is_empty());
    let mut inserted = 0;
    let mut replaced = 0;
    for (i, op) in ops.iter().enumerate() {
        assert_eq!(op.op_id, format!("a:{}", i + 1));
        assert!(op.base_start <= op.base_end && op.base_end <= BASE.len() as u64);
        if i > 0 {
            assert!(ops[i - 1].base_end <= op.base_start);
            assert!(ops[i - 1].order_key < op.order_key);
        }
        let kind = if op.base_start == op.base_end {
            LaneOpKind::Insert
        } else if op.inserted_len == 0 {
            LaneOpKind::Delete
        } else {
            LaneOpKind::Replace
        };
        assert_eq!(op.kind, kind);
        inserted += op.inserted_len as u64;
        replaced += op.base_end - op.base_start;
    }
    assert_eq!(BASE.len() as u64 + inserted, content.len() as u64 + replaced);
}

#[test]
fn the_order_of_acceptance_does_not_matter() {
    for (left, right) in [
        (&b"ONE\ntwo\nthree\n"[..], &b"one\ntwo\nTHREE\n"[..]),
        (&b"one\nfrom a\ntwo\nthree\n"[..], &b"one\nand b\ntwo\nthree\n"[..]),
    ] {
        let mut ends: Vec<Vec<u8>> = Vec::new();
        for order in [["a", "b"], ["b", "a"]] {
            let mut repo = repo();
            edit(&mut repo, "a", left);
            edit(&mut repo, "b", right);
            let mut base = BASE.to_vec();
            for lane in order {
                let all = names(&repo, lane, &base);
                base = repo
                    .promote_ops_path("f", lane, Some(&base), &all)
                    .unwrap()
                    .unwrap();
            }
            ends.push(base);
        }
        assert_eq!(ends[0], ends[1]);
    }
}

#[test]
fn lanes_are_listed_in_order() {
    let mut repo = LaneRepo::new();
    for lane in ["b", "a", "c", "a"] {
        repo.create_lane(lane).unwrap();
    }
    assert_eq!(repo.lane_ids(), vec!["a", "b", "c"]);
}

#[test]
fn accepting_clean_operations_leaves_the_conflicting_ones() {
    let mut repo = repo();
    edit(&mut repo, "a", b"one!\nTWO\nthree!\n");
    edit(&mut repo, "b", b"one\nzwei\nthree\n");
    let ops = repo.change_ops("f", "a", Some(BASE)).unwrap();
    let clean: Vec<String> = ops
        .iter()
        .filter(|op| op.conflicts_with.is_empty())
        .map(|op| op.op_id.clone())
        .collect();
    assert_eq!(clean, vec!["a:1", "a:3"]);
    let promoted = repo
        .promote_ops_path("f", "a", Some(BASE), &clean)
        .unwrap()
        .unwrap();
    assert_eq!(promoted, b"one!\ntwo\nthree!\n");
    assert_eq!(seen(&repo, "a", &promoted), b"one!\nTWO\nthree!\n");
    assert_eq!(names(&repo, "a", &promoted), vec!["a:2"]);
}
