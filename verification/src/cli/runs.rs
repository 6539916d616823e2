//! Stored runs: how they grow, how they are listed, and how they go.
use vstd::prelude::*;

use crate::cli::accept::discard;
use crate::cli::orchestrate;
use crate::cli::orchestrate::run_lanes;
use crate::cli::records::{AttemptRecordView, CheckRecord, RunRecord, RunRecordView};
use crate::cli::review;
use crate::repo;
use crate::repo::Repo;
use crate::text;
use crate::vfs::{Fs, LaneFs};

verus! {

/// A run with one more check.
pub fn append_check(run: RunRecord, check: CheckRecord) -> (r: RunRecord)
    ensures
        r@ == (RunRecordView { checks: run@.checks.push(check@), ..run@ }),
{
    let ghost before = run@;
    let ghost added = check@;
    let mut run = run;
    run.checks.push(check);
    assert(run@.checks =~= before.checks.push(added));
    run
}

/// A stored run as it is listed.
#[derive(Clone, Debug, PartialEq, Eq)]
pub struct RunHistory {
    pub name: String,
    pub attempts: usize,
    pub checks: usize,
}

/// A [`RunHistory`] as a mathematical value.
pub struct RunHistoryView {
    pub name: Seq<char>,
    pub attempts: nat,
    pub checks: nat,
}

impl View for RunHistory {
    type V = RunHistoryView;

    open spec fn view(&self) -> RunHistoryView {
        RunHistoryView {
            name: self.name@,
            attempts: self.attempts as nat,
            checks: self.checks as nat,
        }
    }
}

/// A stored run as it is listed.
pub open spec fn listed_run(run: RunRecordView) -> RunHistoryView {
    RunHistoryView { name: run.name, attempts: run.attempts.len(), checks: run.checks.len() }
}

/// Stored runs with the numbers of their attempts and checks.
pub fn run_history(runs: &Vec<RunRecord>) -> (r: Vec<RunHistory>)
    ensures
        r@.len() == runs@.len(),
        forall|i: int| 0 <= i < r@.len() ==> (#[trigger] r@[i])@ == listed_run(runs@[i]@),
{
    let mut list: Vec<RunHistory> = Vec::new();
    let mut i: usize = 0;
    while i < runs.len()
        invariant
            i <= runs@.len(),
            list@.len() == i,
            forall|k: int| 0 <= k < i ==> (#[trigger] list@[k])@ == listed_run(runs@[k]@),
        decreases runs@.len() - i,
    {
        let run = &runs[i];
        assert(run@.attempts.len() == run.attempts@.len());
        assert(run@.checks.len() == run.checks@.len());
        list.push(
            RunHistory {
                name: run.name.clone(),
                attempts: run.attempts.len(),
                checks: run.checks.len(),
            },
        );
        i = i + 1;
    }
    list
}

/// The lanes of the attempts of a run.
pub open spec fn attempt_lanes_of(run: RunRecordView) -> Seq<Seq<char>> {
    run.attempts.map_values(|attempt: AttemptRecordView| attempt.lane)
}

/// A repo without some lanes.
pub open spec fn without_lanes(repo: Repo, lanes: Seq<Seq<char>>) -> Repo
    decreases lanes.len(),
{
    if lanes.len() == 0 {
        repo
    } else {
        repo::repo_discard(without_lanes(repo, lanes.drop_last()), lanes.last())
    }
}

/// What discarding some lanes, one after another, takes away: which of them existed, and how many
/// changes they had.
pub open spec fn taken_away(fs: Fs, lanes: Seq<Seq<char>>) -> (Seq<Seq<char>>, nat)
    decreases lanes.len(),
{
    if lanes.len() == 0 {
        (Seq::empty(), 0)
    } else {
        let before = taken_away(fs, lanes.drop_last());
        let now = Fs { repo: without_lanes(fs.repo, lanes.drop_last()), ..fs };
        (
            if now.repo.lanes.contains(lanes.last()) {
                before.0.push(lanes.last())
            } else {
                before.0
            },
            before.1 + match review::lane_changes(now, lanes.last()) {
                Ok(changes) => changes.len(),
                Err(_) => 0,
            },
        )
    }
}

/// What discarding a run took away: the lanes that existed, and how many changes each of the lanes
/// of the run had.
#[derive(Clone, Debug, PartialEq, Eq)]
pub struct DiscardedRun {
    pub lanes: Vec<String>,
    pub changes: Vec<usize>,
}

/// The sum of counts.
pub open spec fn sum(counts: Seq<usize>) -> nat
    decreases counts.len(),
{
    if counts.len() == 0 {
        0
    } else {
        sum(counts.drop_last()) + counts.last() as nat
    }
}

/// Discards the lanes of the attempts of a run.
pub fn discard_run(fs: &mut LaneFs, run: &RunRecord) -> (r: DiscardedRun)
    requires
        old(fs).wf(),
    ensures
        final(fs).wf(),
        final(fs)@ == (Fs {
            repo: without_lanes(old(fs)@.repo, attempt_lanes_of(run@)),
            ..old(fs)@
        }),
        r.changes@.len() == run@.attempts.len(),
        (text::texts(r.lanes@), sum(r.changes@)) == taken_away(
            old(fs)@,
            attempt_lanes_of(run@),
        ),
{
    let lanes = run_lanes(run);
    let ghost all = attempt_lanes_of(run@);
    let ghost before = fs@;
    let mut gone: Vec<String> = Vec::new();
    let mut changes: Vec<usize> = Vec::new();
    let mut i: usize = 0;
    proof {
        assert(all.subrange(0, 0) =~= Seq::empty());
        assert(text::texts(gone@) =~= Seq::empty());
        assert(fs@ =~= (Fs { repo: without_lanes(before.repo, all.subrange(0, 0)), ..before }));
    }
    while i < lanes.len()
        invariant
            i <= lanes@.len(),
            fs.wf(),
            all == attempt_lanes_of(run@),
            all == text::texts(lanes@),
            fs@ == (Fs {
                repo: without_lanes(before.repo, all.subrange(0, i as int)),
                ..before
            }),
            changes@.len() == i,
            (text::texts(gone@), sum(changes@)) == taken_away(
                before,
                all.subrange(0, i as int),
            ),
        decreases lanes@.len() - i,
    {
        proof {
            assert(all.subrange(0, i + 1).drop_last() =~= all.subrange(0, i as int));
            assert(all.subrange(0, i + 1).last() == lanes@[i as int]@);
        }
        let (removed, count) = discard(fs, lanes[i].as_str());
        let ghost counts = changes@;
        changes.push(count);
        assert(changes@.drop_last() =~= counts);
        if removed {
            let ghost names = text::texts(gone@);
            gone.push(lanes[i].clone());
            assert(text::texts(gone@) =~= names.push(lanes@[i as int]@));
        }
        i = i + 1;
    }
    assert(all.subrange(0, i as int) =~= all);
    DiscardedRun { lanes: gone, changes }
}

/// After a run is discarded none of its lanes is there, and every other lane still is.
pub proof fn law_discarded_run_is_gone(state: Repo, lanes: Seq<Seq<char>>, lane: Seq<char>)
    ensures
        without_lanes(state, lanes).lanes.contains(lane) == (state.lanes.contains(lane)
            && !lanes.contains(lane)),
    decreases lanes.len(),
{
    if lanes.len() > 0 {
        let front = lanes.drop_last();
        law_discarded_run_is_gone(state, front, lane);
        if lanes.contains(lane) && !front.contains(lane) {
            let i = choose|i: int| 0 <= i < lanes.len() && lanes[i] == lane;
            if i < front.len() {
                assert(front[i] == lane);
            }
        }
        if front.contains(lane) {
            let i = choose|i: int| 0 <= i < front.len() && front[i] == lane;
            assert(lanes[i] == lane);
        }
        if lanes.last() == lane {
            assert(lanes[lanes.len() - 1] == lane);
        }
    }
}

} // verus!
