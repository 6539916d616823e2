//! Failures of the storage, their kinds, and when work is tried again.
use vstd::prelude::*;

use crate::numbers;
use crate::numbers::{decimal, parse_u64};
use crate::text;
use crate::text::{cat, split, strip_prefix, trim};

verus! {

/// The kind of a failure.
#[derive(Clone, Copy, Debug, PartialEq, Eq, Structural)]
pub enum FailureKind {
    NotFound,
    PermissionDenied,
    AlreadyExists,
    WouldBlock,
    InvalidInput,
    InvalidData,
    TimedOut,
    StorageFull,
    Interrupted,
    DirectoryNotEmpty,
    IsADirectory,
    NotADirectory,
    Other,
}

/// The code of a failure of the database.
#[derive(Clone, Copy, Debug, PartialEq, Eq, Structural)]
pub enum SqliteCode {
    PermissionDenied,
    ReadOnly,
    AuthorizationForStatementDenied,
    DatabaseBusy,
    DatabaseLocked,
    SystemIoFailure,
    CannotOpen,
    FileLockingProtocolFailed,
    DiskFull,
    OperationAborted,
    OperationInterrupted,
    DatabaseCorrupt,
    NotADatabase,
    Other,
}

/// A failure of the database: it has a code, or a path was not valid, or it is of another kind.
#[derive(Clone, Copy, Debug, PartialEq, Eq, Structural)]
pub enum SqliteFailure {
    Code(SqliteCode),
    InvalidPath,
    Other,
}

/// The kind of a failure with a code.
pub open spec fn kind_of_code(code: SqliteCode) -> FailureKind {
    match code {
        SqliteCode::PermissionDenied => FailureKind::PermissionDenied,
        SqliteCode::ReadOnly => FailureKind::PermissionDenied,
        SqliteCode::AuthorizationForStatementDenied => FailureKind::PermissionDenied,
        SqliteCode::DatabaseBusy => FailureKind::WouldBlock,
        SqliteCode::DatabaseLocked => FailureKind::WouldBlock,
        SqliteCode::SystemIoFailure => FailureKind::Other,
        SqliteCode::CannotOpen => FailureKind::Other,
        SqliteCode::FileLockingProtocolFailed => FailureKind::Other,
        SqliteCode::DiskFull => FailureKind::StorageFull,
        SqliteCode::OperationAborted => FailureKind::Interrupted,
        SqliteCode::OperationInterrupted => FailureKind::Interrupted,
        SqliteCode::DatabaseCorrupt => FailureKind::InvalidData,
        SqliteCode::NotADatabase => FailureKind::InvalidData,
        SqliteCode::Other => FailureKind::InvalidData,
    }
}

/// The kind of a failure with a code.
pub fn sqlite_error_kind(code: SqliteCode) -> (r: FailureKind)
    ensures
        r == kind_of_code(code),
{
    match code {
        SqliteCode::PermissionDenied
        | SqliteCode::ReadOnly
        | SqliteCode::AuthorizationForStatementDenied => FailureKind::PermissionDenied,
        SqliteCode::DatabaseBusy | SqliteCode::DatabaseLocked => FailureKind::WouldBlock,
        SqliteCode::SystemIoFailure
        | SqliteCode::CannotOpen
        | SqliteCode::FileLockingProtocolFailed => FailureKind::Other,
        SqliteCode::DiskFull => FailureKind::StorageFull,
        SqliteCode::OperationAborted
        | SqliteCode::OperationInterrupted => FailureKind::Interrupted,
        SqliteCode::DatabaseCorrupt
        | SqliteCode::NotADatabase
        | SqliteCode::Other => FailureKind::InvalidData,
    }
}

/// The kind of a failure of the database.
pub open spec fn kind_of_failure(failure: SqliteFailure) -> FailureKind {
    match failure {
        SqliteFailure::Code(code) => kind_of_code(code),
        SqliteFailure::InvalidPath => FailureKind::InvalidInput,
        SqliteFailure::Other => FailureKind::InvalidData,
    }
}

/// The kind of a failure of the database.
pub fn sqlite_error(failure: SqliteFailure) -> (r: FailureKind)
    ensures
        r == kind_of_failure(failure),
{
    match failure {
        SqliteFailure::Code(code) => sqlite_error_kind(code),
        SqliteFailure::InvalidPath => FailureKind::InvalidInput,
        SqliteFailure::Other => FailureKind::InvalidData,
    }
}

/// The message about a store that does not hold what it should.
pub open spec fn invalid_storage_text(path: Seq<char>, error: Seq<char>) -> Seq<char> {
    text::flat(seq!["invalid lane storage "@, path, ": "@, error])
}

/// The message about a store that does not hold what it should.
pub fn invalid_storage(path: &str, error: &str) -> (r: String)
    ensures
        r@ == invalid_storage_text(path@, error@),
{
    let parts: Vec<&str> = vec!["invalid lane storage ", path, ": ", error];
    assert(text::strs(parts@) =~= seq!["invalid lane storage "@, path@, ": "@, error@]);
    cat(parts)
}

/// The message about a store in a form that is no longer read.
pub open spec fn legacy_text(path: Seq<char>) -> Seq<char> {
    text::flat(
        seq!["legacy lane storage "@, path, " is unsupported; remove .lane to reset"@],
    )
}

/// Refuses a store that holds a file in a form that is no longer read.
pub fn reject_legacy_storage(legacy: &str, exists: bool) -> (r: Result<(), String>)
    ensures
        match r {
            Ok(()) => !exists,
            Err(message) => exists && message@ == legacy_text(legacy@),
        },
{
    if exists {
        let parts: Vec<&str> = vec![
            "legacy lane storage ",
            legacy,
            " is unsupported; remove .lane to reset",
        ];
        assert(text::strs(parts@) =~= seq![
            "legacy lane storage "@,
            legacy@,
            " is unsupported; remove .lane to reset"@,
        ]);
        Err(cat(parts))
    } else {
        Ok(())
    }
}

/// The message about an operation that failed on a path.
pub fn path_error(operation: &str, path: &str, error: &str) -> (r: String)
    ensures
        r@ == text::flat(seq![operation@, " "@, path@, ": "@, error@]),
{
    let parts: Vec<&str> = vec![operation, " ", path, ": ", error];
    assert(text::strs(parts@) =~= seq![operation@, " "@, path@, ": "@, error@]);
    cat(parts)
}

/// The name of the file that is written before it takes the place of another.
pub open spec fn temp_name(file_name: Seq<char>, pid: nat, id: nat) -> Seq<char> {
    text::flat(
        seq![
            "."@,
            file_name,
            "."@,
            numbers::decimal_text(pid),
            "."@,
            numbers::decimal_text(id),
            ".tmp"@,
        ],
    )
}

/// The name of the file that is written before it takes the place of another.
pub fn temp_file_name(file_name: &str, pid: u32, id: u64) -> (r: String)
    ensures
        r@ == temp_name(file_name@, pid as nat, id as nat),
{
    let pid_text = decimal(pid as u64);
    let id_text = decimal(id);
    let parts: Vec<&str> = vec![
        ".",
        file_name,
        ".",
        pid_text.as_str(),
        ".",
        id_text.as_str(),
        ".tmp",
    ];
    assert(text::strs(parts@) =~= seq![
        "."@,
        file_name@,
        "."@,
        pid_text@,
        "."@,
        id_text@,
        ".tmp"@,
    ]);
    cat(parts)
}

/// The names of a database file and of the files that are kept beside it.
pub fn sqlite_file_names(file_name: &str) -> (r: Vec<String>)
    ensures
        text::texts(r@) == seq![
            file_name@,
            file_name@ + "-journal"@,
            file_name@ + "-wal"@,
            file_name@ + "-shm"@,
        ],
{
    let mut names: Vec<String> = Vec::new();
    names.push(file_name.to_owned());
    names.push(file_name.to_owned().concat("-journal"));
    names.push(file_name.to_owned().concat("-wal"));
    names.push(file_name.to_owned().concat("-shm"));
    assert(text::texts(names@) =~= seq![
        file_name@,
        file_name@ + "-journal"@,
        file_name@ + "-wal"@,
        file_name@ + "-shm"@,
    ]);
    names
}

/// How often a file is put in the place of another before the failure is reported.
pub const REPLACE_RETRY_ATTEMPTS: usize = 40;

/// How long to wait before the next attempt, in milliseconds.
pub const REPLACE_RETRY_DELAY_MS: u64 = 25;

/// Whether a failure to put a file in the place of another can pass.
pub fn is_transient_replace_error(windows: bool, kind: FailureKind, os_error: Option<i32>) -> (r:
    bool)
    ensures
        r == (windows && (kind == FailureKind::PermissionDenied || os_error == Some(5i32)
            || os_error == Some(32i32))),
{
    windows && (kind == FailureKind::PermissionDenied || match os_error {
        Some(code) => code == 5 || code == 32,
        None => false,
    })
}

/// Whether an attempt, counted from one, is followed by another.
pub fn retry_replace(attempt: usize, transient: bool) -> (r: bool)
    ensures
        r == (attempt < REPLACE_RETRY_ATTEMPTS && transient),
{
    attempt < REPLACE_RETRY_ATTEMPTS && transient
}

// The lock on the storage.

/// How often the lock is asked for.
pub const LOCK_RETRY_ATTEMPTS: usize = 1200;

/// How long to wait before it is asked for again, in milliseconds.
pub const LOCK_RETRY_DELAY_MS: u64 = 25;

/// The age from which a lock of unknown owner is no longer heeded, in milliseconds.
pub const LOCK_STALE_AFTER_MS: u64 = 5000;

/// Whether a failure to take the lock means that it is taken.
pub fn is_lock_contention(windows: bool, kind: FailureKind) -> (r: bool)
    ensures
        r == (kind == FailureKind::AlreadyExists || (windows && kind
            == FailureKind::PermissionDenied)),
{
    kind == FailureKind::AlreadyExists || (windows && kind == FailureKind::PermissionDenied)
}

/// What a look at the lock file gave.
#[derive(Debug, PartialEq, Eq)]
pub enum LockLook {
    /// It could not be looked at.
    Failed(FailureKind),
    /// Its contents, and its age in milliseconds where it is known.
    Seen(String, Option<u64>),
}

/// The owner that a line of a lock file names.
pub open spec fn line_owner(line: Seq<char>) -> Option<nat> {
    match text::after_prefix(line, "pid="@) {
        None => None,
        Some(rest) => numbers::parsed_number(text::trim_text(rest), u32::MAX as nat),
    }
}

/// The owner that the first line that names one names.
pub open spec fn first_owner(lines: Seq<Seq<char>>) -> Option<nat>
    decreases lines.len(),
{
    if lines.len() == 0 {
        None
    } else {
        match first_owner(lines.drop_last()) {
            Some(owner) => Some(owner),
            None => line_owner(lines.last()),
        }
    }
}

/// The owner that the contents of a lock file name.
pub open spec fn lock_owner(contents: Seq<char>) -> Option<nat> {
    first_owner(text::split_text(contents, '\n'))
}

/// An optional number as a mathematical value.
pub open spec fn opt_number(n: Option<u32>) -> Option<nat> {
    match n {
        Some(n) => Some(n as nat),
        None => None,
    }
}

fn parse_line_owner(line: &str) -> (r: Option<u32>)
    ensures
        opt_number(r) == line_owner(line@),
{
    match strip_prefix(line, "pid=") {
        None => None,
        Some(rest) => {
            let number = trim(rest.as_str());
            match parse_u64(number.as_str()) {
                Some(n) => {
                    if n <= u32::MAX as u64 {
                        Some(n as u32)
                    } else {
                        None
                    }
                },
                None => None,
            }
        },
    }
}

/// The owner that the contents of a lock file name.
pub fn parse_lock_owner_pid(contents: &str) -> (r: Option<u32>)
    ensures
        opt_number(r) == lock_owner(contents@),
{
    let lines = split(contents, '\n');
    let ghost all = text::texts(lines@);
    let mut i: usize = 0;
    assert(all.subrange(0, 0) =~= Seq::empty());
    while i < lines.len()
        invariant
            i <= lines@.len(),
            all == text::texts(lines@),
            all == text::split_text(contents@, '\n'),
            first_owner(all.subrange(0, i as int)) is None,
        decreases lines@.len() - i,
    {
        proof {
            assert(all.subrange(0, i + 1).drop_last() =~= all.subrange(0, i as int));
            assert(all.subrange(0, i + 1).last() == lines@[i as int]@);
        }
        match parse_line_owner(lines[i].as_str()) {
            Some(owner) => {
                proof {
                    lemma_first_owner(all, i + 1);
                }
                return Some(owner);
            },
            None => {},
        }
        i = i + 1;
    }
    assert(all.subrange(0, i as int) =~= all);
    None
}

proof fn lemma_first_owner(lines: Seq<Seq<char>>, n: int)
    requires
        0 <= n <= lines.len(),
        first_owner(lines.subrange(0, n)) is Some,
    ensures
        first_owner(lines) == first_owner(lines.subrange(0, n)),
    decreases lines.len() - n,
{
    if n == lines.len() {
        assert(lines.subrange(0, n) =~= lines);
    } else {
        assert(lines.subrange(0, n + 1).drop_last() =~= lines.subrange(0, n));
        lemma_first_owner(lines, n + 1);
    }
}

/// Whether a process runs, from what the system says of it: no process has the number zero.
pub fn process_is_running(pid: u32, alive: Option<bool>) -> (r: Option<bool>)
    ensures
        r == match alive {
            Some(alive) => Some(pid != 0 && alive),
            None => None::<bool>,
        },
{
    match alive {
        Some(alive) => Some(pid != 0 && alive),
        None => None,
    }
}

/// Whether a lock is no longer heeded, from what a look at its file gave and from whether its
/// owner runs.
pub open spec fn stale_lock(windows: bool, look: LockLook, running: Option<bool>) -> Result<
    bool,
    FailureKind,
> {
    match look {
        LockLook::Failed(kind) => if kind == FailureKind::NotFound {
            Ok(true)
        } else if contended(windows, kind) {
            Ok(false)
        } else {
            Err(kind)
        },
        LockLook::Seen(contents, age) => if lock_owner(contents@) is Some && running is Some {
            Ok(!running->Some_0)
        } else {
            Ok(age is Some && age->Some_0 >= LOCK_STALE_AFTER_MS)
        },
    }
}

/// Whether a failure to take the lock means that it is taken.
pub open spec fn contended(windows: bool, kind: FailureKind) -> bool {
    kind == FailureKind::AlreadyExists || (windows && kind == FailureKind::PermissionDenied)
}

/// Whether a lock is no longer heeded. A lock that is gone, or whose owner does not run, is not;
/// one of which no owner is known is heeded until it is old.
pub fn lock_is_stale(windows: bool, look: &LockLook, running: Option<bool>) -> (r: Result<
    bool,
    FailureKind,
>)
    ensures
        r == stale_lock(windows, *look, running),
{
    match look {
        LockLook::Failed(kind) => {
            if *kind == FailureKind::NotFound {
                Ok(true)
            } else if is_lock_contention(windows, *kind) {
                Ok(false)
            } else {
                Err(*kind)
            }
        },
        LockLook::Seen(contents, age) => {
            if parse_lock_owner_pid(contents.as_str()).is_some() {
                match running {
                    Some(running) => {
                        return Ok(!running);
                    },
                    None => {},
                }
            }
            match age {
                Some(age) => Ok(*age >= LOCK_STALE_AFTER_MS),
                None => Ok(false),
            }
        },
    }
}

/// Whether a lock has been cleared away, from whether it is heeded and from what its removal
/// gave. It counts as cleared where it was gone already.
pub fn reap_stale_lock(
    windows: bool,
    stale: Result<bool, FailureKind>,
    removal: Option<FailureKind>,
) -> (r: Result<bool, FailureKind>)
    ensures
        r == match stale {
            Err(kind) => Err(kind),
            Ok(false) => Ok::<bool, FailureKind>(false),
            Ok(true) => match removal {
                None => Ok(true),
                Some(kind) => if kind == FailureKind::NotFound {
                    Ok(true)
                } else if contended(windows, kind) {
                    Ok(false)
                } else {
                    Err(kind)
                },
            },
        },
{
    match stale {
        Err(kind) => Err(kind),
        Ok(stale) => {
            if !stale {
                return Ok(false);
            }
            match removal {
                None => Ok(true),
                Some(kind) => {
                    if kind == FailureKind::NotFound {
                        Ok(true)
                    } else if is_lock_contention(windows, kind) {
                        Ok(false)
                    } else {
                        Err(kind)
                    }
                },
            }
        },
    }
}

/// What an attempt to take the lock gave: it was taken, or refused, and then the lock in the way
/// was cleared or not.
#[derive(Clone, Copy, Debug, PartialEq, Eq)]
pub enum LockEvent {
    Taken,
    Refused(FailureKind, Result<bool, FailureKind>),
}

/// What to do next about the lock.
#[derive(Clone, Copy, Debug, PartialEq, Eq)]
pub enum LockAction {
    Hold,
    TryAgain,
    WaitAndTryAgain,
    Fail(FailureKind),
}

/// The attempts so far, and why the last one that had to wait failed.
#[derive(Clone, Copy, Debug, PartialEq, Eq)]
pub struct LockAttempts {
    pub made: usize,
    pub last_error: Option<FailureKind>,
}

/// The failure after the last attempt.
pub open spec fn lock_failure(last_error: Option<FailureKind>) -> FailureKind {
    match last_error {
        Some(kind) => kind,
        None => FailureKind::TimedOut,
    }
}

/// What follows an attempt to take the lock.
pub open spec fn lock_next(windows: bool, attempts: LockAttempts, event: LockEvent) -> (
    LockAttempts,
    LockAction,
) {
    let made = (attempts.made + 1) as usize;
    match event {
        LockEvent::Taken => (LockAttempts { made, ..attempts }, LockAction::Hold),
        LockEvent::Refused(kind, reaped) => if !contended(windows, kind) {
            (LockAttempts { made, ..attempts }, LockAction::Fail(kind))
        } else {
            match reaped {
                Err(failure) => (LockAttempts { made, ..attempts }, LockAction::Fail(failure)),
                Ok(true) => (
                    LockAttempts { made, ..attempts },
                    if made < LOCK_RETRY_ATTEMPTS {
                        LockAction::TryAgain
                    } else {
                        LockAction::Fail(lock_failure(attempts.last_error))
                    },
                ),
                Ok(false) => (
                    LockAttempts { made, last_error: Some(kind) },
                    if made < LOCK_RETRY_ATTEMPTS {
                        LockAction::WaitAndTryAgain
                    } else {
                        LockAction::Fail(kind)
                    },
                ),
            }
        },
    }
}

impl LockAttempts {
    /// Before the first attempt.
    pub fn new() -> (r: Self)
        ensures
            r.made == 0,
            r.last_error is None,
    {
        LockAttempts { made: 0, last_error: None }
    }

    /// Whether attempts are left.
    pub open spec fn wf(&self) -> bool {
        self.made < LOCK_RETRY_ATTEMPTS
    }

    /// Takes account of an attempt and says what to do next.
    pub fn next(&mut self, windows: bool, event: LockEvent) -> (r: LockAction)
        requires
            old(self).wf(),
        ensures
            (*final(self), r) == lock_next(windows, *old(self), event),
            r is TryAgain || r is WaitAndTryAgain ==> final(self).wf(),
    {
        self.made = self.made + 1;
        match event {
            LockEvent::Taken => LockAction::Hold,
            LockEvent::Refused(kind, reaped) => {
                if !is_lock_contention(windows, kind) {
                    return LockAction::Fail(kind);
                }
                match reaped {
                    Err(failure) => LockAction::Fail(failure),
                    Ok(reaped) => {
                        if reaped {
                            if self.made < LOCK_RETRY_ATTEMPTS {
                                LockAction::TryAgain
                            } else {
                                match self.last_error {
                                    Some(kind) => LockAction::Fail(kind),
                                    None => LockAction::Fail(FailureKind::TimedOut),
                                }
                            }
                        } else {
                            self.last_error = Some(kind);
                            if self.made < LOCK_RETRY_ATTEMPTS {
                                LockAction::WaitAndTryAgain
                            } else {
                                LockAction::Fail(kind)
                            }
                        }
                    },
                }
            },
        }
    }
}

/// The line that names the owner of a lock.
pub open spec fn owner_line(pid: nat) -> Seq<char> {
    text::flat(seq!["pid="@, numbers::decimal_text(pid), "\n"@])
}

/// The contents of a lock file that names its owner.
pub fn lock_contents(pid: u32) -> (r: String)
    ensures
        r@ == owner_line(pid as nat),
{
    let digits = decimal(pid as u64);
    let parts: Vec<&str> = vec!["pid=", digits.as_str(), "\n"];
    assert(text::strs(parts@) =~= seq!["pid="@, digits@, "\n"@]);
    cat(parts)
}

proof fn lemma_unsplit(s: Seq<char>, c: char)
    requires
        forall|i: int| 0 <= i < s.len() ==> #[trigger] s[i] != c,
    ensures
        text::split_text(s, c) == seq![s],
    decreases s.len(),
{
    if s.len() == 0 {
        assert(s =~= Seq::empty());
    } else {
        let rest = s.drop_last();
        assert forall|i: int| 0 <= i < rest.len() implies #[trigger] rest[i] != c by {
            assert(s[i] != c);
        }
        lemma_unsplit(rest, c);
        assert(s[s.len() - 1] != c);
        assert(rest.push(s.last()) =~= s);
        assert(text::split_text(s, c) =~= seq![s]);
    }
}

/// The owner of a lock is found in what the owner wrote.
pub proof fn law_lock_names_its_owner(pid: u32)
    ensures
        lock_owner(owner_line(pid as nat)) == Some(pid as nat),
{
    let digits = numbers::decimal_text(pid as nat);
    let line = "pid="@ + digits;
    let whole = owner_line(pid as nat);
    numbers::lemma_decimal_round_trip(pid as nat, u32::MAX as nat);
    numbers::lemma_decimal_digits(pid as nat);
    reveal_strlit("pid=");
    reveal_strlit("\n");
    reveal_with_fuel(text::flat, 4);
    let parts = seq!["pid="@, digits, "\n"@];
    assert(parts.drop_last().drop_last() =~= seq!["pid="@]);
    assert(parts.drop_last().drop_last().drop_last() =~= Seq::empty());
    assert(whole =~= line.push('\n'));
    assert(whole.drop_last() =~= line);
    assert forall|i: int| 0 <= i < line.len() implies #[trigger] line[i] != '\n' by {
        if i >= 4 {
            assert(line[i] == digits[i - 4]);
            assert(numbers::is_digit(digits[i - 4]));
        }
    }
    lemma_unsplit(line, '\n');
    let lines = text::split_text(whole, '\n');
    assert(lines =~= seq![line, Seq::<char>::empty()]);
    assert(lines.drop_last() =~= seq![line]);
    assert(lines.drop_last().drop_last() =~= Seq::empty());
    assert(line.subrange(4, line.len() as int) =~= digits);
    assert(line.subrange(0, 4) =~= "pid="@);
    assert(text::after_prefix(line, "pid="@) == Some(digits));
    assert(numbers::is_digit(digits[0]));
    assert(numbers::is_digit(digits[digits.len() - 1]));
    assert(text::trim_text(digits) == digits);
    assert(line_owner(line) == Some(pid as nat));
    reveal_with_fuel(first_owner, 3);
}

/// A lock that its owner wrote is heeded as long as the owner runs, however old it is, and no longer
/// once the owner does not.
pub proof fn law_lock_is_heeded_while_its_owner_runs(
    windows: bool,
    contents: String,
    age: Option<u64>,
    pid: u32,
    running: bool,
)
    requires
        contents@ == owner_line(pid as nat),
    ensures
        stale_lock(windows, LockLook::Seen(contents, age), Some(running)) == Ok::<
            bool,
            FailureKind,
        >(!running),
{
    law_lock_names_its_owner(pid);
}

/// The lock is held exactly where it was taken, every attempt counts, and none follows the last. A
/// refusal that does not mean that the lock is taken ends the attempts.
pub proof fn law_lock_is_held_where_it_was_taken(
    windows: bool,
    attempts: LockAttempts,
    event: LockEvent,
)
    requires
        attempts.wf(),
    ensures
        ({
            let (after, action) = lock_next(windows, attempts, event);
            &&& action is Hold <==> event is Taken
            &&& after.made == attempts.made + 1
            &&& action is TryAgain || action is WaitAndTryAgain ==> after.made < LOCK_RETRY_ATTEMPTS
            &&& action is TryAgain || action is WaitAndTryAgain ==> (event matches
                LockEvent::Refused(kind, cleared) && cleared == Ok::<bool, FailureKind>(
                action is TryAgain,
            ) && (kind == FailureKind::AlreadyExists || windows && kind
                == FailureKind::PermissionDenied))
        }),
{
}

} // verus!
