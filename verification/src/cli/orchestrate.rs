//! Runs of several attempts: which lanes they get, how they ended, and how they compare.
use vstd::prelude::*;

use crate::cli::error::CliError;
use crate::cli::groups::words;
use crate::cli::output::{ReviewLaneSummary, ReviewLaneSummaryView};
use crate::cli::records::{
    AttemptRecord, AttemptRecordView, CheckRecord, CheckRecordView, CompareAction,
    CompareActionView, CompareAttempt, CompareAttemptView, CompareCheck, CompareCheckView,
    RunRecord,
};
use crate::lists;
use crate::numbers;
use crate::numbers::decimal;
use crate::repo::{LaneRepo, Repo};
use crate::sorting;
use crate::sorting::{sort_list, Ranked};
use crate::storage::paths;
use crate::storage::paths::encode_path_component;
use crate::text;
use crate::text::{contains_text, join, text_eq, trim};
use crate::text_map;
use crate::types;
use crate::types::{copy_opt_text, debug_quoted, ensure_user_lane};
use crate::vfs;
use crate::vfs::LaneFsErrorView;

verus! {

/// The version of stored runs.
pub const RUN_VERSION: u32 = 1;

/// Why a run is refused before it starts, if it is.
pub open spec fn run_fault(name: Seq<char>, attempts: nat) -> Option<Seq<char>> {
    if text::trim_text(name).len() == 0 {
        Some("run name cannot be empty"@)
    } else if attempts == 0 {
        Some("attempts must be greater than zero"@)
    } else {
        None
    }
}

/// Accepts a run that has a name and attempts.
pub fn validate_run_request(name: &str, attempts: usize) -> (r: Result<(), CliError>)
    ensures
        match r {
            Ok(()) => run_fault(name@, attempts as nat) is None,
            Err(error) => run_fault(name@, attempts as nat) == Some(error@),
        },
{
    if trim(name).as_str().is_empty() {
        return Err(CliError::message("run name cannot be empty"));
    }
    if attempts == 0 {
        return Err(CliError::message("attempts must be greater than zero"));
    }
    Ok(())
}

/// The lane of an attempt.
pub open spec fn attempt_lane(name: Seq<char>, index: nat) -> Seq<char> {
    name + "-"@ + numbers::decimal_text(index)
}

/// The lanes of the first `n` attempts.
pub open spec fn attempt_lane_list(name: Seq<char>, n: nat) -> Seq<Seq<char>> {
    Seq::new(n, |i: int| attempt_lane(name, (i + 1) as nat))
}

/// The lanes of a run's attempts, or why the first bad one is no name for a lane.
pub fn attempt_lanes(name: &str, attempts: usize) -> (r: Result<Vec<String>, CliError>)
    ensures
        r matches Ok(lanes) ==> text::texts(lanes@) == attempt_lane_list(name@, attempts as nat),
        r is Ok ==> forall|i: int|
            1 <= i <= attempts ==> types::user_lane(#[trigger] attempt_lane(name@, i as nat)),
        r is Err ==> some_attempt_refused(name@, attempts as nat, r->Err_0@),
{
    let mut lanes: Vec<String> = Vec::new();
    let mut index: usize = 0;
    while index < attempts
        invariant
            index <= attempts,
            lanes@.len() == index,
            forall|k: int| 0 <= k < index ==> (#[trigger] lanes@[k])@ == attempt_lane(
                name@,
                (k + 1) as nat,
            ),
            forall|i: int|
                1 <= i <= index ==> types::user_lane(#[trigger] attempt_lane(name@, i as nat)),
        decreases attempts - index,
    {
        index = index + 1;
        let lane = name.to_owned().concat("-").concat(decimal(index as u64).as_str());
        assert(lane@ == attempt_lane(name@, index as nat));
        match ensure_user_lane(lane.as_str()) {
            Err(error) => {
                let told = CliError::from_lane(error);
                proof {
                    assert forall|i: int| 1 <= i < index implies types::user_lane(
                        #[trigger] attempt_lane(name@, i as nat),
                    ) by {}
                    assert(refuses_attempt(name@, index as nat, told@));
                    assert(some_attempt_refused(name@, attempts as nat, told@));
                }
                return Err(told);
            },
            Ok(()) => {},
        }
        lanes.push(lane);
    }
    assert(text::texts(lanes@) =~= attempt_lane_list(name@, attempts as nat));
    Ok(lanes)
}

/// Attempt `i` is the first whose lane has a bad name, and users are told so.
pub open spec fn refuses_attempt(name: Seq<char>, i: nat, message: Seq<char>) -> bool {
    &&& forall|j: int| 1 <= j < i ==> types::user_lane(#[trigger] attempt_lane(name, j as nat))
    &&& types::parsed_lane(attempt_lane(name, i)) is Err
    &&& message == vfs::fs_error_message(
        LaneFsErrorView::Lane(types::parsed_lane(attempt_lane(name, i))->Err_0),
    )
}

/// Some attempt is the first whose lane has a bad name, and users are told so.
pub open spec fn some_attempt_refused(name: Seq<char>, attempts: nat, message: Seq<char>) -> bool {
    exists|i: nat| 1 <= i <= attempts && #[trigger] refuses_attempt(name, i, message)
}

/// The attempts of a run have different lanes.
pub proof fn law_attempt_lanes_differ(name: Seq<char>, i: nat, j: nat)
    requires
        attempt_lane(name, i) == attempt_lane(name, j),
    ensures
        i == j,
{
    let whole = attempt_lane(name, i);
    let n = (name + "-"@).len() as int;
    assert(whole.subrange(n, whole.len() as int) =~= numbers::decimal_text(i));
    assert(whole.subrange(n, whole.len() as int) =~= numbers::decimal_text(j));
    let max = if i < j {
        j
    } else {
        i
    };
    numbers::lemma_decimal_round_trip(i, max);
    numbers::lemma_decimal_round_trip(j, max);
}

/// The lanes of a run that exist already, in order.
pub open spec fn taken_lanes(repo: Repo, lanes: Seq<Seq<char>>) -> Seq<Seq<char>> {
    text_map::listing(repo.lanes).filter(|lane: Seq<char>| lanes.contains(lane))
}

/// The repo with more lanes.
pub open spec fn with_lanes(repo: Repo, lanes: Seq<Seq<char>>) -> Repo {
    Repo { lanes: repo.lanes.union(Set::new(|lane: Seq<char>| lanes.contains(lane))), ..repo }
}

fn find_taken(repo: &LaneRepo, lanes: &Vec<String>) -> (r: Vec<String>)
    requires
        repo.wf(),
    ensures
        text::texts(r@) == taken_lanes(repo@, text::texts(lanes@)),
{
    let known = repo.lane_ids();
    let ghost all = text::strs(known@);
    let ghost keep = |lane: Seq<char>| text::texts(lanes@).contains(lane);
    let mut taken: Vec<String> = Vec::new();
    let mut i: usize = 0;
    reveal(Seq::filter);
    assert(all.subrange(0, 0) =~= Seq::empty());
    assert(text::texts(taken@) =~= Seq::empty());
    while i < known.len()
        invariant
            i <= known@.len(),
            all == text::strs(known@),
            keep == (|lane: Seq<char>| text::texts(lanes@).contains(lane)),
            text::texts(taken@) == all.subrange(0, i as int).filter(keep),
        decreases known@.len() - i,
    {
        let ghost before = text::texts(taken@);
        reveal(Seq::filter);
        assert(all.subrange(0, i + 1).drop_last() =~= all.subrange(0, i as int));
        assert(all.subrange(0, i + 1).last() == known@[i as int]@);
        if contains_text(lanes, known[i]) {
            taken.push(known[i].to_owned());
            assert(text::texts(taken@) =~= before.push(known@[i as int]@));
        }
        i = i + 1;
    }
    assert(all.subrange(0, i as int) =~= all);
    taken
}

/// Creates the lanes of a run. All of them must be new.
pub fn reserve_attempt_lanes(repo: &mut LaneRepo, lanes: &Vec<String>) -> (r: Result<(), CliError>)
    requires
        old(repo).wf(),
        forall|i: int| 0 <= i < lanes@.len() ==> types::user_lane((#[trigger] lanes@[i])@),
    ensures
        final(repo).wf(),
        match r {
            Ok(()) => {
                &&& taken_lanes(old(repo)@, text::texts(lanes@)).len() == 0
                &&& final(repo)@ == with_lanes(old(repo)@, text::texts(lanes@))
            },
            Err(error) => {
                &&& taken_lanes(old(repo)@, text::texts(lanes@)).len() > 0
                &&& error@ == "attempt lanes already exist: "@ + text::join_texts(
                    taken_lanes(old(repo)@, text::texts(lanes@)),
                    ", "@,
                )
                &&& final(repo)@ == old(repo)@
            },
        },
{
    let taken = find_taken(repo, lanes);
    if taken.len() > 0 {
        let message = "attempt lanes already exist: ".to_owned().concat(
            join(&taken, ", ").as_str(),
        );
        return Err(CliError::message(message.as_str()));
    }
    assert(text::texts(taken@).len() == 0);
    let ghost all = text::texts(lanes@);
    let ghost start = repo@;
    let mut i: usize = 0;
    assert(repo@ =~= with_lanes(start, all.subrange(0, 0)));
    while i < lanes.len()
        invariant
            i <= lanes@.len(),
            repo.wf(),
            all == text::texts(lanes@),
            taken_lanes(start, all).len() == 0,
            start == old(repo)@,
            forall|i: int| 0 <= i < lanes@.len() ==> types::user_lane((#[trigger] lanes@[i])@),
            repo@ == with_lanes(start, all.subrange(0, i as int)),
        decreases lanes@.len() - i,
    {
        let ghost before = repo@;
        match repo.create_lane(lanes[i].as_str()) {
            Err(error) => {
                assert(types::user_lane(lanes@[i as int]@));
                assert(false);
                return Err(CliError::from_lane(error));
            },
            Ok(_) => {},
        }
        proof {
            let shorter = all.subrange(0, i as int);
            let longer = all.subrange(0, i + 1);
            assert(longer =~= shorter.push(lanes@[i as int]@));
            assert forall|k: Seq<char>| #[trigger] longer.contains(k) <==> shorter.contains(k) || k
                == lanes@[i as int]@ by {
                if shorter.contains(k) {
                    let j = choose|j: int| 0 <= j < shorter.len() && shorter[j] == k;
                    assert(longer[j] == k);
                }
                assert(longer[i as int] == lanes@[i as int]@);
            }
            assert(repo@.lanes =~= with_lanes(start, longer).lanes);
        }
        i = i + 1;
    }
    assert(all.subrange(0, i as int) =~= all);
    Ok(())
}

/// Whether an attempt succeeded.
pub open spec fn attempt_ok(attempt: AttemptRecordView) -> bool {
    attempt.orchestration_error is None && match attempt.recorded {
        Some(outcome) => outcome.worker_error is None && outcome.exit_code == Some(0i32),
        None => false,
    }
}

impl AttemptRecord {
    /// Whether the attempt succeeded.
    pub fn ok(&self) -> (r: bool)
        ensures
            r == attempt_ok(self@),
    {
        self.orchestration_error.is_none() && match &self.recorded {
            Some(outcome) => outcome.worker_error.is_none() && match outcome.exit_code {
                Some(code) => code == 0,
                None => false,
            },
            None => false,
        }
    }

    /// An attempt that could not be carried out.
    pub fn failed(index: usize, lane: &str, error: &str) -> (r: Self)
        ensures
            r@ == (AttemptRecordView {
                index: index as nat,
                lane: lane@,
                recorded: None,
                orchestration_error: Some(error@),
            }),
    {
        AttemptRecord {
            index,
            lane: lane.to_owned(),
            recorded: None,
            orchestration_error: Some(error.to_owned()),
        }
    }

    /// An attempt whose thread panicked.
    pub fn thread_panic(kind: &str, index: usize, lane: &str) -> (r: Self)
        ensures
            r@ == (AttemptRecordView {
                index: index as nat,
                lane: lane@,
                recorded: None,
                orchestration_error: Some(kind@ + " thread panicked"@),
            }),
    {
        let message = kind.to_owned().concat(" thread panicked");
        AttemptRecord::failed(index, lane, message.as_str())
    }
}

impl Ranked for AttemptRecord {
    open spec fn before(a: AttemptRecordView, b: AttemptRecordView) -> bool {
        a.index < b.index
    }

    fn is_before(&self, other: &Self) -> (r: bool) {
        self.index < other.index
    }

    proof fn lemma_asymmetric(a: AttemptRecordView, b: AttemptRecordView) {
    }

    proof fn lemma_weak(a: AttemptRecordView, b: AttemptRecordView, c: AttemptRecordView) {
    }
}

/// The attempts by number.
pub fn sorted_attempts(attempts: Vec<AttemptRecord>) -> (r: Vec<AttemptRecord>)
    ensures
        sorting::views(r@) == sorting::ordered::<AttemptRecord>(sorting::views(attempts@)),
{
    sort_list(attempts)
}

/// Whether some attempt of a run could not be carried out.
pub fn run_failed(attempts: &Vec<AttemptRecord>) -> (r: bool)
    ensures
        r == (exists|i: int|
            0 <= i < attempts@.len() && (#[trigger] attempts@[i]).orchestration_error is Some),
{
    let mut i: usize = 0;
    while i < attempts.len()
        invariant
            i <= attempts@.len(),
            forall|k: int| 0 <= k < i ==> (#[trigger] attempts@[k]).orchestration_error is None,
        decreases attempts@.len() - i,
    {
        if attempts[i].orchestration_error.is_some() {
            assert(attempts@[i as int].orchestration_error is Some);
            return true;
        }
        i = i + 1;
    }
    false
}

/// Whether a check failed for some attempt.
pub fn check_failed(attempts: &Vec<AttemptRecord>) -> (r: bool)
    ensures
        r == (exists|i: int| 0 <= i < attempts@.len() && !attempt_ok((#[trigger] attempts@[i])@)),
{
    let mut i: usize = 0;
    while i < attempts.len()
        invariant
            i <= attempts@.len(),
            forall|k: int| 0 <= k < i ==> attempt_ok((#[trigger] attempts@[k])@),
        decreases attempts@.len() - i,
    {
        if !attempts[i].ok() {
            assert(!attempt_ok(attempts@[i as int]@));
            return true;
        }
        i = i + 1;
    }
    false
}

/// The name of a check: the one that is asked for, or one by number.
pub fn check_name(name: Option<&str>, run: &RunRecord) -> (r: String)
    requires
        run.checks@.len() < usize::MAX,
    ensures
        r@ == match name {
            Some(name) => name@,
            None => "check-"@ + numbers::decimal_text((run.checks@.len() + 1) as nat),
        },
{
    match name {
        Some(name) => name.to_owned(),
        None => {
            let n: usize = run.checks.len();
            "check-".to_owned().concat(decimal(n as u64 + 1).as_str())
        },
    }
}

/// The name of the file that holds a run.
pub fn run_file_name(name: &str) -> (r: String)
    ensures
        r@ == paths::encoded_component(name@) + ".json"@,
{
    encode_path_component(name).concat(".json")
}

/// Accepts the name of a run that is not stored yet.
pub fn ensure_run_is_new(name: &str, stored: bool) -> (r: Result<(), CliError>)
    ensures
        match r {
            Ok(()) => !stored,
            Err(error) => stored && error@ == "run "@ + types::debug_text(name@)
                + " already exists"@,
        },
{
    if stored {
        Err(
            CliError::message(
                "run ".to_owned().concat(debug_quoted(name).as_str()).concat(
                    " already exists",
                ).as_str(),
            ),
        )
    } else {
        Ok(())
    }
}

/// Accepts a stored run of the version that is known.
pub fn ensure_run_version(name: &str, run: &RunRecord) -> (r: Result<(), CliError>)
    ensures
        match r {
            Ok(()) => run@.version == RUN_VERSION,
            Err(error) => run@.version != RUN_VERSION && error@ == "run "@ + types::debug_text(
                name@,
            ) + " has version "@ + numbers::decimal_text(run@.version as nat) + "; expected "@
                + numbers::decimal_text(RUN_VERSION as nat),
        },
{
    if run.version == RUN_VERSION {
        Ok(())
    } else {
        Err(
            CliError::message(
                "run ".to_owned().concat(debug_quoted(name).as_str()).concat(
                    " has version ",
                ).concat(decimal(run.version as u64).as_str()).concat("; expected ").concat(
                    decimal(RUN_VERSION as u64).as_str(),
                ).as_str(),
            ),
        )
    }
}

/// The lanes of a run's attempts.
pub fn run_lanes(run: &RunRecord) -> (r: Vec<String>)
    ensures
        text::texts(r@) == run@.attempts.map_values(|attempt: AttemptRecordView| attempt.lane),
{
    let mut lanes: Vec<String> = Vec::new();
    let mut i: usize = 0;
    while i < run.attempts.len()
        invariant
            i <= run.attempts@.len(),
            lanes@.len() == i,
            forall|k: int| 0 <= k < i ==> (#[trigger] lanes@[k])@ == run.attempts@[k].lane@,
        decreases run.attempts@.len() - i,
    {
        lanes.push(run.attempts[i].lane.clone());
        i = i + 1;
    }
    assert(text::texts(lanes@) =~= run@.attempts.map_values(
        |attempt: AttemptRecordView| attempt.lane,
    ));
    lanes
}

/// The review of a lane; the last one of that name counts.
pub open spec fn review_for(lanes: Seq<ReviewLaneSummaryView>, lane: Seq<char>) -> Option<
    ReviewLaneSummaryView,
>
    decreases lanes.len(),
{
    if lanes.len() == 0 {
        None
    } else if lanes.last().lane == lane {
        Some(lanes.last())
    } else {
        review_for(lanes.drop_last(), lane)
    }
}

/// The attempt of a lane; the first one counts.
pub open spec fn attempt_for(attempts: Seq<AttemptRecordView>, lane: Seq<char>) -> Option<
    AttemptRecordView,
>
    decreases attempts.len(),
{
    if attempts.len() == 0 {
        None
    } else if attempts[0].lane == lane {
        Some(attempts[0])
    } else {
        attempt_for(attempts.drop_first(), lane)
    }
}

/// The exit code of an attempt, if it has one.
pub open spec fn exit_code_of(attempt: AttemptRecordView) -> Option<i32> {
    match attempt.recorded {
        Some(outcome) => outcome.exit_code,
        None => None,
    }
}

/// The worker error of an attempt, if it has one.
pub open spec fn worker_error_of(attempt: AttemptRecordView) -> Option<Seq<char>> {
    match attempt.recorded {
        Some(outcome) => outcome.worker_error,
        None => None,
    }
}

/// How a check ended for an attempt.
pub open spec fn compared_check(name: Seq<char>, attempt: AttemptRecordView) -> CompareCheckView {
    CompareCheckView {
        name,
        ok: attempt_ok(attempt),
        exit_code: exit_code_of(attempt),
        worker_error: worker_error_of(attempt),
        orchestration_error: attempt.orchestration_error,
    }
}

/// How the checks ended for the attempt of a lane.
pub open spec fn compared_checks(checks: Seq<CheckRecordView>, lane: Seq<char>) -> Seq<
    CompareCheckView,
>
    decreases checks.len(),
{
    if checks.len() == 0 {
        Seq::empty()
    } else {
        let rest = compared_checks(checks.drop_last(), lane);
        match attempt_for(checks.last().attempts, lane) {
            Some(attempt) => rest.push(compared_check(checks.last().name, attempt)),
            None => rest,
        }
    }
}

/// The number of checks that succeeded.
pub open spec fn passed(checks: Seq<CompareCheckView>) -> nat
    decreases checks.len(),
{
    if checks.len() == 0 {
        0
    } else if checks.last().ok {
        passed(checks.drop_last()) + 1
    } else {
        passed(checks.drop_last())
    }
}

proof fn lemma_passed(checks: Seq<CompareCheckView>)
    ensures
        passed(checks) <= checks.len(),
    decreases checks.len(),
{
    if checks.len() > 0 {
        lemma_passed(checks.drop_last());
    }
}

/// What can be done with an attempt.
pub open spec fn attempt_actions(lane: Seq<char>, clean_ops: nat) -> Seq<CompareActionView> {
    let looks = seq![
        CompareActionView { kind: "review_human"@, command: seq!["review"@, "--human"@, lane] },
        CompareActionView { kind: "diff"@, command: seq!["review"@, lane, "--diff"@] },
    ];
    let discard = seq![
        CompareActionView { kind: "discard"@, command: seq!["discard"@, lane] },
    ];
    if clean_ops > 0 {
        looks + seq![
            CompareActionView { kind: "promote_clean"@, command: seq!["accept"@, lane] },
        ] + discard
    } else {
        looks + discard
    }
}

/// An attempt next to the others.
pub open spec fn compared_attempt(
    attempt: AttemptRecordView,
    checks: Seq<CheckRecordView>,
    lanes: Seq<ReviewLaneSummaryView>,
) -> CompareAttemptView {
    let results = compared_checks(checks, attempt.lane);
    let review = review_for(lanes, attempt.lane);
    let clean_ops = match review {
        Some(lane) => lane.clean_ops,
        None => 0,
    };
    CompareAttemptView {
        index: attempt.index,
        lane: attempt.lane,
        attempt_ok: attempt_ok(attempt),
        attempt_exit_code: exit_code_of(attempt),
        attempt_error: match attempt.orchestration_error {
            Some(error) => Some(error),
            None => worker_error_of(attempt),
        },
        checks_passed: passed(results),
        checks_failed: (results.len() - passed(results)) as nat,
        checks: results,
        changed_paths: match review {
            Some(lane) => lane.changed_paths,
            None => 0,
        },
        clean_ops,
        conflicted_ops: match review {
            Some(lane) => lane.conflicted_ops,
            None => 0,
        },
        actions: attempt_actions(attempt.lane, clean_ops),
    }
}

fn find_review<'a>(lanes: &'a Vec<ReviewLaneSummary>, lane: &str) -> (r: Option<
    &'a ReviewLaneSummary,
>)
    ensures
        match r {
            Some(found) => review_for(sorting::views(lanes@), lane@) == Some(found@),
            None => review_for(sorting::views(lanes@), lane@) is None,
        },
{
    let ghost all = sorting::views(lanes@);
    let mut n: usize = lanes.len();
    assert(all.subrange(0, n as int) =~= all);
    while n > 0
        invariant
            n <= lanes@.len(),
            all == sorting::views(lanes@),
            review_for(all, lane@) == review_for(all.subrange(0, n as int), lane@),
        decreases n,
    {
        assert(all.subrange(0, n as int).drop_last() =~= all.subrange(0, n - 1));
        assert(all.subrange(0, n as int).last() == lanes@[n - 1]@);
        if text_eq(lanes[n - 1].lane.as_str(), lane) {
            return Some(&lanes[n - 1]);
        }
        n = n - 1;
    }
    None
}

fn find_attempt<'a>(attempts: &'a Vec<AttemptRecord>, lane: &str) -> (r: Option<&'a AttemptRecord>)
    ensures
        match r {
            Some(found) => attempt_for(sorting::views(attempts@), lane@) == Some(found@),
            None => attempt_for(sorting::views(attempts@), lane@) is None,
        },
{
    let ghost all = sorting::views(attempts@);
    let mut i: usize = 0;
    assert(all.subrange(0, all.len() as int) =~= all);
    while i < attempts.len()
        invariant
            i <= attempts@.len(),
            all == sorting::views(attempts@),
            attempt_for(all, lane@) == attempt_for(all.subrange(i as int, all.len() as int), lane@),
        decreases attempts@.len() - i,
    {
        let ghost rest = all.subrange(i as int, all.len() as int);
        assert(rest.drop_first() =~= all.subrange(i + 1, all.len() as int));
        assert(rest[0] == attempts@[i as int]@);
        if text_eq(attempts[i].lane.as_str(), lane) {
            return Some(&attempts[i]);
        }
        i = i + 1;
    }
    None
}

fn attempt_exit_code(attempt: &AttemptRecord) -> (r: Option<i32>)
    ensures
        r == exit_code_of(attempt@),
{
    match &attempt.recorded {
        Some(outcome) => outcome.exit_code,
        None => None,
    }
}

fn attempt_worker_error(attempt: &AttemptRecord) -> (r: Option<String>)
    ensures
        text::opt_text(r) == worker_error_of(attempt@),
{
    match &attempt.recorded {
        Some(outcome) => copy_opt_text(&outcome.worker_error),
        None => None,
    }
}

fn compare_checks(checks: &Vec<CheckRecord>, lane: &str) -> (r: Vec<CompareCheck>)
    ensures
        sorting::views(r@) == compared_checks(sorting::views(checks@), lane@),
{
    let ghost all = sorting::views(checks@);
    let mut r: Vec<CompareCheck> = Vec::new();
    let mut i: usize = 0;
    assert(sorting::views(r@) =~= Seq::empty());
    while i < checks.len()
        invariant
            i <= checks@.len(),
            all == sorting::views(checks@),
            sorting::views(r@) == compared_checks(all.subrange(0, i as int), lane@),
        decreases checks@.len() - i,
    {
        assert(all.subrange(0, i + 1).drop_last() =~= all.subrange(0, i as int));
        assert(all.subrange(0, i + 1).last() == checks@[i as int]@);
        match find_attempt(&checks[i].attempts, lane) {
            Some(attempt) => {
                let check = CompareCheck {
                    name: checks[i].name.clone(),
                    ok: attempt.ok(),
                    exit_code: attempt_exit_code(attempt),
                    worker_error: attempt_worker_error(attempt),
                    orchestration_error: copy_opt_text(&attempt.orchestration_error),
                };
                proof {
                    lists::lemma_views_push(r@, check);
                }
                r.push(check);
            },
            None => {},
        }
        i = i + 1;
    }
    assert(all.subrange(0, i as int) =~= all);
    r
}

fn count_passed(checks: &Vec<CompareCheck>) -> (r: usize)
    ensures
        r == passed(sorting::views(checks@)),
        r <= checks@.len(),
{
    let ghost all = sorting::views(checks@);
    let mut count: usize = 0;
    let mut i: usize = 0;
    let n: usize = checks.len();
    while i < n
        invariant
            i <= n == checks@.len(),
            all == sorting::views(checks@),
            count == passed(all.subrange(0, i as int)),
            count <= i,
        decreases n - i,
    {
        assert(all.subrange(0, i + 1).drop_last() =~= all.subrange(0, i as int));
        assert(all.subrange(0, i + 1).last() == checks@[i as int]@);
        if checks[i].ok {
            count = count + 1;
        }
        i = i + 1;
    }
    assert(all.subrange(0, i as int) =~= all);
    count
}

fn compare_action(kind: &str, command: Vec<&str>) -> (r: CompareAction)
    ensures
        r@ == (CompareActionView { kind: kind@, command: text::strs(command@) }),
{
    CompareAction { kind: kind.to_owned(), command: words(command) }
}

fn compare_actions(lane: &str, clean_ops: usize) -> (r: Vec<CompareAction>)
    ensures
        sorting::views(r@) == attempt_actions(lane@, clean_ops as nat),
{
    let mut actions: Vec<CompareAction> = Vec::new();
    let review: Vec<&str> = vec!["review", "--human", lane];
    assert(text::strs(review@) =~= seq!["review"@, "--human"@, lane@]);
    actions.push(compare_action("review_human", review));
    let diff: Vec<&str> = vec!["review", lane, "--diff"];
    assert(text::strs(diff@) =~= seq!["review"@, lane@, "--diff"@]);
    actions.push(compare_action("diff", diff));
    if clean_ops > 0 {
        let accept: Vec<&str> = vec!["accept", lane];
        assert(text::strs(accept@) =~= seq!["accept"@, lane@]);
        actions.push(compare_action("promote_clean", accept));
    }
    let discard: Vec<&str> = vec!["discard", lane];
    assert(text::strs(discard@) =~= seq!["discard"@, lane@]);
    actions.push(compare_action("discard", discard));
    assert(sorting::views(actions@) =~= attempt_actions(lane@, clean_ops as nat));
    actions
}

fn compare_attempt(
    attempt: &AttemptRecord,
    checks: &Vec<CheckRecord>,
    lanes: &Vec<ReviewLaneSummary>,
) -> (r: CompareAttempt)
    ensures
        r@ == compared_attempt(attempt@, sorting::views(checks@), sorting::views(lanes@)),
{
    let results = compare_checks(checks, attempt.lane.as_str());
    let checks_passed: usize = count_passed(&results);
    let checks_failed: usize = results.len() - checks_passed;
    let (changed_paths, clean_ops, conflicted_ops): (usize, usize, usize) = match find_review(
        lanes,
        attempt.lane.as_str(),
    ) {
        Some(lane) => (lane.changed_paths, lane.clean_ops, lane.conflicted_ops),
        None => (0, 0, 0),
    };
    let attempt_error = match &attempt.orchestration_error {
        Some(error) => Some(error.clone()),
        None => attempt_worker_error(attempt),
    };
    CompareAttempt {
        index: attempt.index,
        lane: attempt.lane.clone(),
        attempt_ok: attempt.ok(),
        attempt_exit_code: attempt_exit_code(attempt),
        attempt_error,
        checks_passed,
        checks_failed,
        checks: results,
        changed_paths,
        clean_ops,
        conflicted_ops,
        actions: compare_actions(attempt.lane.as_str(), clean_ops),
    }
}

/// The numbers of checks add up.
pub open spec fn checks_add_up(attempt: CompareAttemptView) -> bool {
    attempt.checks_passed + attempt.checks_failed <= usize::MAX
}

/// Puts the attempts of a run side by side: how each ended, how its checks ended, and what its
/// lane changes.
pub fn compare_attempts(run: &RunRecord, lanes: &Vec<ReviewLaneSummary>) -> (r: Vec<CompareAttempt>)
    ensures
        sorting::views(r@) == run@.attempts.map_values(
            |attempt: AttemptRecordView|
                compared_attempt(attempt, run@.checks, sorting::views(lanes@)),
        ),
        forall|i: int| 0 <= i < r@.len() ==> checks_add_up((#[trigger] r@[i])@),
{
    let mut r: Vec<CompareAttempt> = Vec::new();
    let mut i: usize = 0;
    while i < run.attempts.len()
        invariant
            i <= run.attempts@.len(),
            r@.len() == i,
            forall|k: int|
                0 <= k < i ==> (#[trigger] r@[k])@ == compared_attempt(
                    run.attempts@[k]@,
                    run@.checks,
                    sorting::views(lanes@),
                ) && checks_add_up(r@[k]@),
        decreases run.attempts@.len() - i,
    {
        let attempt = compare_attempt(&run.attempts[i], &run.checks, lanes);
        let n: usize = attempt.checks.len();
        proof {
            assert(attempt@.checks.len() == n);
            lemma_passed(attempt@.checks);
        }
        r.push(attempt);
        i = i + 1;
    }
    assert(sorting::views(r@) =~= run@.attempts.map_values(
        |attempt: AttemptRecordView| compared_attempt(attempt, run@.checks, sorting::views(lanes@)),
    ));
    r
}

} // verus!
