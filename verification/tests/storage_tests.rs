//! How the state of lanes is stored, checked and cleaned up.
use lane::fingerprint::sha256_hex;
use lane::storage::doctor::{
    blob_inventory, collect_referenced_blobs, validate_referenced_blobs, BlobFile, BlobRead,
};
use lane::storage::encode::{snapshot_blobs, snapshot_rows, stored_repo_to_snapshot};
use lane::storage::failures::{
    invalid_storage, is_lock_contention, is_transient_replace_error, lock_contents, lock_is_stale,
    parse_lock_owner_pid, path_error, process_is_running, reap_stale_lock, reject_legacy_storage,
    retry_replace, sqlite_error, sqlite_file_names, temp_file_name, FailureKind,
    LOCK_RETRY_ATTEMPTS, LockAction, LockAttempts, LockEvent, LockLook, REPLACE_RETRY_ATTEMPTS,
    SqliteCode, SqliteFailure,
};
use lane::storage::inspect::{
    check_records, cleanup_storage, doctor_storage, inspect_storage, validate_evidence, Evidence,
    EvidenceRow, RecordRow, StoreState,
};
use lane::storage::manifest::{
    gc_storage, manifest_from_snapshot, referenced_blobs, stored_from_manifest,
};
use lane::storage::paths::{encode_path_component, last_exec_file_name};
use lane::storage::rows::{read_stored_repo, EntryRow, FileRow, OpRow, StoreRows, StoredRepo};
use lane::storage::values::{
    blob_file_name, blob_reference, parse_base, parse_fingerprint, parse_hex, parse_u64,
    parse_version, stored_base, validate_blob_reference,
};
use lane::text_map::TextMap;
use lane::{BaseStorageSnapshot, DecodeError, LaneRepo};

const ABC: &str = "ba7816bf8f01cfea414140de5dae2223b00361a396177a9cb410ff61f20015ad";

fn sample_repo() -> LaneRepo {
    let mut repo = LaneRepo::new();
    repo.create_lane("agent-a").unwrap();
    repo.create_lane("agent-b").unwrap();
    repo.replace_path("a.txt", "agent-a", Some(b"one\n"), Some(b"one abc\n".to_vec()))
        .unwrap();
    repo.delete_path("a.txt", "agent-b", Some(b"one\n")).unwrap();
    repo.replace_path("new.txt", "agent-b", None, Some(b"abc".to_vec()))
        .unwrap();
    repo
}

fn stored(repo: &LaneRepo) -> (StoredRepo, TextMap<Vec<u8>>) {
    let snapshot = repo.storage_snapshot();
    let rows = snapshot_rows(&snapshot);
    (
        read_stored_repo(&rows).unwrap(),
        snapshot_blobs(&snapshot),
    )
}

fn all_reads(blobs: &TextMap<Vec<u8>>) -> TextMap<BlobRead> {
    let mut reads = TextMap::new();
    for i in 0..blobs.len() {
        reads.insert(
            blobs.key_at(i).to_owned(),
            BlobRead::Bytes(blobs.value_at(i).clone()),
        );
    }
    reads
}

fn listing(blobs: &TextMap<Vec<u8>>) -> Vec<BlobFile> {
    (0..blobs.len())
        .map(|i| {
            let name = blob_file_name(blobs.key_at(i)).unwrap();
            BlobFile {
                path: format!("/blobs/{name}"),
                name: Some(name),
                bytes: blobs.value_at(i).len() as u64,
            }
        })
        .collect()
}

#[test]
fn sqlite_error_maps_storage_failures_to_specific_io_kinds() {
    for (code, kind) in [
        (SqliteCode::DiskFull, FailureKind::StorageFull),
        (SqliteCode::ReadOnly, FailureKind::PermissionDenied),
        (SqliteCode::DatabaseBusy, FailureKind::WouldBlock),
        (SqliteCode::DatabaseCorrupt, FailureKind::InvalidData),
        (SqliteCode::CannotOpen, FailureKind::Other),
        (SqliteCode::OperationAborted, FailureKind::Interrupted),
    ] {
        assert_eq!(sqlite_error(SqliteFailure::Code(code)), kind);
    }
    assert_eq!(
        sqlite_error(SqliteFailure::InvalidPath),
        FailureKind::InvalidInput
    );
    assert_eq!(sqlite_error(SqliteFailure::Other), FailureKind::InvalidData);
}

#[test]
fn digests_are_sha256() {
    assert_eq!(sha256_hex(b"abc"), ABC);
    assert_eq!(
        sha256_hex(b""),
        "e3b0c44298fc1c149afbf4c8996fb92427ae41e4649b934ca495991b7852b855"
    );
    assert_eq!(blob_reference(b"abc"), format!("sha256/{ABC}"));
}

#[test]
fn stored_state_is_loaded_back() {
    let repo = sample_repo();
    let (stored, blobs) = stored(&repo);
    let snapshot = stored_repo_to_snapshot(&stored, &blobs).unwrap();
    let loaded = LaneRepo::from_storage_snapshot(snapshot).unwrap();
    assert_eq!(loaded, repo);
    assert_eq!(
        loaded.read_path("a.txt", "agent-a", Some(b"one\n")).unwrap(),
        Some(b"one abc\n".to_vec())
    );
    assert_eq!(
        loaded.read_path("a.txt", "agent-b", Some(b"one\n")).unwrap(),
        None
    );
}

#[test]
fn a_missing_blob_leaves_nothing_to_load() {
    let (stored, mut blobs) = stored(&sample_repo());
    blobs.remove(&blob_reference(b"abc"));
    assert!(stored_repo_to_snapshot(&stored, &blobs).is_none());
}

#[test]
fn rows_spell_out_the_state() {
    let rows = snapshot_rows(&sample_repo().storage_snapshot());
    assert_eq!(rows.version, "3");
    assert_eq!(rows.lanes, vec!["agent-a", "agent-b"]);
    assert_eq!(rows.files.len(), 2);
    assert_eq!(rows.files[0].path, "a.txt");
    assert_eq!(rows.files[0].base_state, "present");
    assert_eq!(rows.files[0].base_fingerprint, Some(sha256_hex(b"one\n")));
    assert_eq!(rows.files[1].base_state, "missing");
    assert_eq!(rows.files[1].base_fingerprint, None);
    let entries: Vec<(&str, &str, &str)> = rows
        .entries
        .iter()
        .map(|e| (e.path.as_str(), e.lane.as_str(), e.state.as_str()))
        .collect();
    assert_eq!(
        entries,
        vec![
            ("a.txt", "agent-a", "present"),
            ("a.txt", "agent-b", "deleted"),
            ("new.txt", "agent-b", "present"),
        ]
    );
    assert_eq!(rows.ops.len(), 2);
    assert_eq!(rows.ops[0].ordinal, 0);
    assert_eq!(rows.ops[0].id, "1");
    assert_eq!(rows.ops[0].base_start, "3");
    assert_eq!(rows.ops[0].base_len, "0");
    assert_eq!(rows.ops[0].inserted_len, "4");
    assert_eq!(rows.ops[1].inserted_blob, format!("sha256/{ABC}"));
}

fn file_row(path: &str) -> FileRow {
    FileRow {
        path: path.to_owned(),
        base_state: "missing".to_owned(),
        base_fingerprint: None,
    }
}

fn entry_row(path: &str, lane: &str, state: &str) -> EntryRow {
    EntryRow {
        path: path.to_owned(),
        lane: lane.to_owned(),
        state: state.to_owned(),
    }
}

fn op_row(path: &str, lane: &str, id: &str) -> OpRow {
    OpRow {
        path: path.to_owned(),
        lane: lane.to_owned(),
        ordinal: 0,
        id: id.to_owned(),
        base_start: "0".to_owned(),
        base_len: "0".to_owned(),
        order_key: "i".to_owned(),
        inserted_blob: format!("sha256/{ABC}"),
        inserted_len: "3".to_owned(),
    }
}

fn rows(files: Vec<FileRow>, entries: Vec<EntryRow>, ops: Vec<OpRow>) -> StoreRows {
    StoreRows {
        version: "3".to_owned(),
        lanes: vec!["a".to_owned()],
        files,
        entries,
        ops,
    }
}

#[test]
fn bad_rows_are_refused() {
    let refused = |rows: StoreRows| read_stored_repo(&rows).unwrap_err();

    let mut other = rows(vec![], vec![], vec![]);
    other.version = "4".to_owned();
    assert_eq!(
        refused(other),
        "unsupported lane storage version 4; expected 3"
    );
    let mut lanes = rows(vec![], vec![], vec![]);
    lanes.lanes.push("base".to_owned());
    assert_eq!(refused(lanes), "reserved lane name \"base\"");
    assert_eq!(
        refused(rows(vec![file_row("/x")], vec![], vec![])),
        "invalid repo path: path must be repo-relative"
    );
    assert_eq!(
        refused(rows(vec![file_row("x"), file_row("./x")], vec![], vec![])),
        "database contains duplicate file path after normalization: \"x\""
    );
    assert_eq!(
        refused(rows(
            vec![file_row("x")],
            vec![entry_row("x", "a", "odd")],
            vec![]
        )),
        "database entry x:a has invalid state \"odd\""
    );
    assert_eq!(
        refused(rows(vec![], vec![entry_row("x", "a", "present")], vec![])),
        "database entry x:a references missing file"
    );
    assert_eq!(
        refused(rows(
            vec![file_row("x")],
            vec![entry_row("x", "a", "present"), entry_row("./x", "a", "deleted")],
            vec![]
        )),
        "database file x contains duplicate lane entry after normalization: a"
    );
    assert_eq!(
        refused(rows(vec![], vec![], vec![op_row("x", "a", "1")])),
        "database op x:a:1 references missing file"
    );
    assert_eq!(
        refused(rows(vec![file_row("x")], vec![], vec![op_row("x", "a", "1")])),
        "database op x:a:1 references missing entry"
    );
    assert_eq!(
        refused(rows(
            vec![file_row("x")],
            vec![entry_row("x", "a", "deleted")],
            vec![op_row("x", "a", "1")]
        )),
        "deleted database entry x:a has stored ops"
    );
    assert_eq!(
        refused(rows(vec![], vec![], vec![op_row("x", "a", "one")])),
        "database field id value \"one\" is not a u64: invalid digit found in string"
    );
}

#[test]
fn values_are_read_back_or_refused() {
    assert_eq!(parse_u64("18446744073709551615", "id"), Ok(u64::MAX));
    assert_eq!(parse_u64("+7", "id"), Ok(7));
    assert!(parse_u64("18446744073709551616", "id")
        .unwrap_err()
        .ends_with("number too large to fit in target type"));
    assert!(parse_u64("", "id")
        .unwrap_err()
        .ends_with("cannot parse integer from empty string"));
    assert_eq!(parse_version("3"), Ok(3));
    assert_eq!(
        parse_version("x").unwrap_err(),
        "schema_version \"x\" is not a u32: invalid digit found in string"
    );
    assert_eq!(parse_hex("00fFA5"), Ok(vec![0x00, 0xff, 0xa5]));
    assert_eq!(parse_hex("0").unwrap_err(), "hex value must have an even length");
    assert_eq!(
        parse_hex("0g").unwrap_err(),
        "hex value contains a non-hex digit"
    );
    assert_eq!(
        parse_fingerprint("00").unwrap_err(),
        "base fingerprint must be 32 bytes"
    );
    let base = BaseStorageSnapshot::Present([7; 32]);
    let (state, print) = stored_base(&base);
    assert_eq!(parse_base(state, &print), Ok(base));
    assert_eq!(
        parse_base("present", &None).unwrap_err(),
        "present database base is missing fingerprint"
    );
    assert_eq!(
        parse_base("missing", &Some("00".to_owned())).unwrap_err(),
        "missing database base must not have a fingerprint"
    );
    assert_eq!(
        parse_base("odd", &None).unwrap_err(),
        "database file has invalid base state \"odd\""
    );
    assert_eq!(
        validate_blob_reference("md5/x").unwrap_err(),
        "blob reference must start with sha256/"
    );
    assert_eq!(
        validate_blob_reference("sha256/x").unwrap_err(),
        "blob reference must contain a 64-character hex sha256"
    );
    assert_eq!(blob_file_name(&format!("sha256/{ABC}")).unwrap(), ABC);
}

#[test]
fn stored_overlays_need_their_lane() {
    let mut snapshot = sample_repo().storage_snapshot();
    snapshot.lanes.remove("agent-b");
    assert_eq!(
        LaneRepo::from_storage_snapshot(snapshot).unwrap_err(),
        DecodeError::OverlayLaneMissing("agent-b".to_owned())
    );
    let mut snapshot = sample_repo().storage_snapshot();
    snapshot.lanes.insert("base".to_owned(), ());
    let error = LaneRepo::from_storage_snapshot(snapshot).unwrap_err();
    assert_eq!(error, DecodeError::ReservedLane("base".to_owned()));
    assert_eq!(
        error.message(),
        "stored manifest contains reserved lane name \"base\""
    );
}

#[test]
fn names_are_encoded_apart() {
    assert_eq!(encode_path_component("agent-a_1.x"), "agent-a_1.x");
    assert_eq!(encode_path_component("a/b c"), "a~2fb~20c");
    assert_eq!(encode_path_component("~"), "~7e");
    assert_eq!(encode_path_component("\u{e9}"), "~c3~a9");
    assert_eq!(last_exec_file_name("a/b"), "a~2fb.json");
    assert_ne!(encode_path_component("a/b"), encode_path_component("a~2fb"));
}

#[test]
fn a_sound_store_is_healthy() {
    let (stored, blobs) = stored(&sample_repo());
    assert_eq!(
        collect_referenced_blobs(&stored).get(&format!("sha256/{ABC}")),
        Some(&vec![3])
    );
    let evidence = Evidence::Rows(
        vec![EvidenceRow {
            name: "agent-a".to_owned(),
            fault: None,
        }],
        check_records(&vec![RecordRow {
            name: "run-1".to_owned(),
            json: "{\"version\": 1}".to_owned(),
        }]),
    );
    let report = doctor_storage(
        &StoreState::Loaded(stored),
        &all_reads(&blobs),
        &evidence,
        &listing(&blobs),
    );
    assert!(report.is_healthy());
    assert!(report.warnings.is_empty());
    assert!(report.store_present);
    assert_eq!(report.version, Some(3));
    assert_eq!(
        (report.lanes, report.files, report.ops, report.blobs_referenced),
        (2, 2, 2, 2)
    );
    assert_eq!((report.blobs_present, report.blobs_unreferenced), (2, 0));
    assert_eq!((report.last_run_rows, report.run_records), (1, 1));
}

#[test]
fn faults_of_a_store_are_reported() {
    let (stored, blobs) = stored(&sample_repo());
    let mut reads = TextMap::new();
    for i in 0..blobs.len() {
        let read = if blobs.value_at(i) == b"abc" {
            BlobRead::Bytes(b"abcd".to_vec())
        } else {
            BlobRead::Unreadable("gone".to_owned())
        };
        reads.insert(blobs.key_at(i).to_owned(), read);
    }
    let mut errors = Vec::new();
    validate_referenced_blobs(&mut errors, &collect_referenced_blobs(&stored), &reads);
    let other = blob_reference(b" abc");
    assert_eq!(errors.len(), 3);
    assert!(errors.contains(&format!("blob sha256/{ABC} length is 4; expected 3")));
    assert!(errors.contains(&format!(
        "blob sha256/{ABC} content hash is {}",
        blob_reference(b"abcd")
    )));
    assert!(errors.contains(&format!("blob {other} is unreadable: gone")));

    let evidence = Evidence::Unreadable("locked".to_owned());
    let report = doctor_storage(
        &StoreState::Loaded(stored),
        &reads,
        &evidence,
        &vec![BlobFile {
            name: Some("odd".to_owned()),
            path: "/blobs/odd".to_owned(),
            bytes: 1,
        }],
    );
    assert!(!report.is_healthy());
    assert_eq!(report.errors.len(), 4);
    assert_eq!(report.errors[3], "evidence rows are unreadable: locked");
    assert_eq!(
        report.warnings,
        vec![
            "blob file /blobs/odd is not a valid sha256 blob name: blob reference must contain a 64-character hex sha256"
        ]
    );
}

#[test]
fn evidence_must_belong_to_a_lane_and_be_json() {
    let mut lanes = TextMap::new();
    lanes.insert("a".to_owned(), ());
    let records = check_records(&vec![
        RecordRow {
            name: "ok".to_owned(),
            json: "[1, 2]".to_owned(),
        },
        RecordRow {
            name: "bad".to_owned(),
            json: "{".to_owned(),
        },
    ]);
    assert_eq!(records[0].fault, None);
    let fault = records[1].fault.clone().unwrap();
    assert!(fault.contains("EOF while parsing an object"));
    let errors = validate_evidence(
        &lanes,
        &Evidence::Rows(
            vec![
                EvidenceRow {
                    name: "gone".to_owned(),
                    fault: None,
                },
                EvidenceRow {
                    name: "a".to_owned(),
                    fault: Some("missing field".to_owned()),
                },
            ],
            records,
        ),
    );
    assert_eq!(
        errors,
        vec![
            "last_run row for lane gone does not belong to a database lane".to_owned(),
            "last_run row for lane a is invalid: missing field".to_owned(),
            format!("run record row \"bad\" is invalid: {fault}"),
        ]
    );
}

#[test]
fn a_store_that_cannot_be_read_is_reported() {
    let none = TextMap::new();
    let no_evidence = Evidence::Rows(vec![], vec![]);
    let report = doctor_storage(
        &StoreState::Unreadable(true, "not a database".to_owned()),
        &none,
        &no_evidence,
        &vec![],
    );
    assert!(report.store_present);
    assert_eq!(report.errors, vec!["not a database"]);
    let missing = doctor_storage(&StoreState::Missing, &none, &no_evidence, &vec![]);
    assert!(!missing.store_present);
    assert!(missing.is_healthy());
}

#[test]
fn cleanup_removes_only_what_nothing_refers_to() {
    let (stored, blobs) = stored(&sample_repo());
    let mut files = listing(&blobs);
    let stale = sha256_hex(b"stale");
    files.push(BlobFile {
        name: Some(stale.clone()),
        path: format!("/blobs/{stale}"),
        bytes: 5,
    });
    let inventory = blob_inventory(&files);
    assert_eq!(inventory.blobs_present, 3);
    let inspection = inspect_storage(
        &StoreState::Loaded(stored),
        &all_reads(&blobs),
        &Evidence::Rows(vec![], vec![]),
        &files,
    );
    assert_eq!(inspection.report.blobs_unreferenced, 1);
    let cleanup = cleanup_storage(&inspection).unwrap();
    assert_eq!(cleanup.stale.len(), 1);
    assert_eq!(cleanup.stale[0].path, format!("/blobs/{stale}"));
    assert_eq!(
        (
            cleanup.report.blobs_removed,
            cleanup.report.bytes_removed,
            cleanup.report.blobs_remaining
        ),
        (1, 5, 2)
    );
}

#[test]
fn cleanup_refuses_what_it_cannot_judge() {
    let none = TextMap::new();
    let no_evidence = Evidence::Rows(vec![], vec![]);
    let missing = inspect_storage(&StoreState::Missing, &none, &no_evidence, &vec![]);
    assert_eq!(
        cleanup_storage(&missing).unwrap_err(),
        "cannot clean lane storage without lane.sqlite"
    );
    let broken = inspect_storage(
        &StoreState::Unreadable(true, "x".to_owned()),
        &none,
        &no_evidence,
        &vec![],
    );
    assert_eq!(
        cleanup_storage(&broken).unwrap_err(),
        "cannot clean unhealthy lane storage; run lane doctor first"
    );
    let (stored, blobs) = stored(&sample_repo());
    let odd = inspect_storage(
        &StoreState::Loaded(stored),
        &all_reads(&blobs),
        &no_evidence,
        &vec![BlobFile {
            name: None,
            path: "/blobs/odd".to_owned(),
            bytes: 0,
        }],
    );
    assert_eq!(
        cleanup_storage(&odd).unwrap_err(),
        "cannot clean storage with invalid blob files; run lane doctor first"
    );
}

#[test]
fn manifests_hold_the_same_state() {
    let repo = sample_repo();
    let snapshot = repo.storage_snapshot();
    let mut manifest = manifest_from_snapshot(&snapshot);
    assert_eq!(manifest.version, 2);
    let stored = stored_from_manifest(&manifest, "/x/repo.json").unwrap();
    let loaded = stored_repo_to_snapshot(&stored, &snapshot_blobs(&snapshot)).unwrap();
    assert_eq!(LaneRepo::from_storage_snapshot(loaded).unwrap(), repo);

    let known = referenced_blobs(&manifest, "/x/repo.json").unwrap();
    assert!(known.contains_key(&format!("sha256/{ABC}")));
    let blobs = snapshot_blobs(&snapshot);
    let mut files = listing(&blobs);
    let stale = sha256_hex(b"stale");
    files.push(BlobFile {
        name: Some(stale.clone()),
        path: stale.clone(),
        bytes: 5,
    });
    let healthy = doctor_storage(
        &StoreState::Loaded(stored),
        &all_reads(&blobs),
        &Evidence::Rows(vec![], vec![]),
        &files,
    );
    let inventory = blob_inventory(&files);
    let removed = gc_storage(true, &healthy, &manifest, "/x/repo.json", &inventory).unwrap();
    assert_eq!(removed.stale.len(), 1);
    assert_eq!(removed.stale[0].path, stale);
    assert_eq!(
        gc_storage(false, &healthy, &manifest, "/x/repo.json", &inventory).unwrap_err(),
        "cannot gc lane storage without repo.json"
    );

    manifest.version = 1;
    let error = stored_from_manifest(&manifest, "/x/repo.json").unwrap_err();
    assert_eq!(
        error,
        invalid_storage(
            "/x/repo.json",
            "unsupported lane storage version 1; expected 2"
        )
    );
}

#[test]
fn locks_name_their_owner_and_go_stale() {
    assert_eq!(lock_contents(42), "pid=42\n");
    assert_eq!(parse_lock_owner_pid(&lock_contents(42)), Some(42));
    assert_eq!(parse_lock_owner_pid("x\npid= 7 \n"), Some(7));
    assert_eq!(parse_lock_owner_pid("pid=x\n"), None);
    assert_eq!(process_is_running(0, Some(true)), Some(false));
    assert_eq!(process_is_running(5, Some(true)), Some(true));

    let seen = LockLook::Seen("pid=9\n".to_owned(), Some(10));
    assert_eq!(lock_is_stale(false, &seen, Some(false)), Ok(true));
    assert_eq!(lock_is_stale(false, &seen, Some(true)), Ok(false));
    assert_eq!(lock_is_stale(false, &seen, None), Ok(false));
    let aged = LockLook::Seen(String::new(), Some(5000));
    assert_eq!(lock_is_stale(false, &aged, None), Ok(true));
    assert_eq!(
        lock_is_stale(false, &LockLook::Failed(FailureKind::NotFound), None),
        Ok(true)
    );
    assert_eq!(
        lock_is_stale(true, &LockLook::Failed(FailureKind::PermissionDenied), None),
        Ok(false)
    );
    assert_eq!(
        lock_is_stale(false, &LockLook::Failed(FailureKind::PermissionDenied), None),
        Err(FailureKind::PermissionDenied)
    );
    assert_eq!(reap_stale_lock(false, Ok(false), None), Ok(false));
    assert_eq!(reap_stale_lock(false, Ok(true), None), Ok(true));
    assert_eq!(
        reap_stale_lock(false, Ok(true), Some(FailureKind::NotFound)),
        Ok(true)
    );
}

#[test]
fn lock_attempts_end() {
    let mut attempts = LockAttempts::new();
    assert_eq!(attempts.next(false, LockEvent::Taken), LockAction::Hold);

    let mut attempts = LockAttempts::new();
    for _ in 1..LOCK_RETRY_ATTEMPTS {
        let event = LockEvent::Refused(FailureKind::AlreadyExists, Ok(false));
        assert_eq!(attempts.next(false, event), LockAction::WaitAndTryAgain);
    }
    let event = LockEvent::Refused(FailureKind::AlreadyExists, Ok(false));
    assert_eq!(
        attempts.next(false, event),
        LockAction::Fail(FailureKind::AlreadyExists)
    );

    let mut attempts = LockAttempts::new();
    let event = LockEvent::Refused(FailureKind::Other, Ok(false));
    assert_eq!(
        attempts.next(false, event),
        LockAction::Fail(FailureKind::Other)
    );
    assert!(is_lock_contention(true, FailureKind::PermissionDenied));
    assert!(!is_lock_contention(false, FailureKind::PermissionDenied));
}

#[test]
fn stores_of_a_former_form_are_refused() {
    assert_eq!(reject_legacy_storage(".lane/repo.lane", false), Ok(()));
    assert_eq!(
        reject_legacy_storage(".lane/repo.lane", true),
        Err(
            "legacy lane storage .lane/repo.lane is unsupported; remove .lane to reset".to_owned()
        )
    );
}

#[test]
fn files_are_replaced_by_way_of_others() {
    assert_eq!(temp_file_name("lane.sqlite", 12, 3), ".lane.sqlite.12.3.tmp");
    assert_eq!(
        sqlite_file_names("db"),
        vec!["db", "db-journal", "db-wal", "db-shm"]
    );
    assert_eq!(
        path_error("write temp file", "/x", "full"),
        "write temp file /x: full"
    );
    assert!(is_transient_replace_error(true, FailureKind::Other, Some(32)));
    assert!(!is_transient_replace_error(false, FailureKind::Other, Some(32)));
    assert!(retry_replace(REPLACE_RETRY_ATTEMPTS - 1, true));
    assert!(!retry_replace(REPLACE_RETRY_ATTEMPTS, true));
    assert!(!retry_replace(1, false));
}
