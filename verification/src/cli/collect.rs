//! Assembly of a review from the changes of lanes.
use vstd::prelude::*;

use crate::cli::error::CliError;
use crate::cli::groups;
use crate::cli::groups::{
    accept_clean_action, conflict_groups_for_path, discard_action, ordered_ops_for_path,
};
use crate::cli::output::{
    ReviewActionOutput, ReviewActionView, ReviewConflictOutput, ReviewConflictView,
    ReviewLaneOutput, ReviewLaneSummary, ReviewLaneSummaryView, ReviewLaneView, ReviewOpOutput,
    ReviewOpView, ReviewPathOutput, ReviewPathView, ReviewSummary, ReviewSummaryView,
};
use crate::cli::review;
use crate::cli::review::{review_changes, ReviewedChange, ReviewedChangeView};
use crate::lists;
use crate::lists::Copied;
use crate::repo;
use crate::sorting;
use crate::sorting::sort_list;
use crate::text;
use crate::text::text_eq;
use crate::text_map;
use crate::text_map::TextMap;
use crate::types::{LaneRunState, RunStateView};
use crate::vfs;
use crate::vfs::LaneFs;

verus! {

/// Which changes are looked at.
pub enum Scope<'a> {
    All,
    Lane(&'a str),
    Path(&'a str),
}

/// A [`Scope`] with its text as a character sequence.
pub enum ScopeView {
    All,
    Lane(Seq<char>),
    Path(Seq<char>),
}

impl<'a> View for Scope<'a> {
    type V = ScopeView;

    open spec fn view(&self) -> ScopeView {
        match self {
            Scope::All => ScopeView::All,
            Scope::Lane(lane) => ScopeView::Lane(lane@),
            Scope::Path(path) => ScopeView::Path(path@),
        }
    }
}

/// Whether a change is looked at.
pub open spec fn in_scope(scope: ScopeView, change: ReviewedChangeView) -> bool {
    match scope {
        ScopeView::All => true,
        ScopeView::Lane(lane) => change.lane == lane,
        ScopeView::Path(path) => change.change.path == path,
    }
}

/// Whether an operation of a change conflicts with no lane.
pub open spec fn is_clean(change: ReviewedChangeView, i: int) -> bool {
    change.change.ops[i].conflicts_with.len() == 0
}

/// Of the first `n` operations of a change, the clean ones or the others.
pub open spec fn picked_upto(change: ReviewedChangeView, clean: bool, n: int) -> Seq<ReviewOpView>
    decreases n,
{
    if n <= 0 {
        Seq::empty()
    } else if is_clean(change, n - 1) == clean {
        picked_upto(change, clean, n - 1).push(change.ops[n - 1])
    } else {
        picked_upto(change, clean, n - 1)
    }
}

/// The clean operations of a change, or the others.
pub open spec fn picked(change: ReviewedChangeView, clean: bool) -> Seq<ReviewOpView> {
    picked_upto(change, clean, change.ops.len() as int)
}

/// The clean operations of the changes that are looked at, or the others.
pub open spec fn scoped_ops(changes: Seq<ReviewedChangeView>, scope: ScopeView, clean: bool) -> Seq<
    ReviewOpView,
>
    decreases changes.len(),
{
    if changes.len() == 0 {
        Seq::empty()
    } else if in_scope(scope, changes.last()) {
        scoped_ops(changes.drop_last(), scope, clean) + picked(changes.last(), clean)
    } else {
        scoped_ops(changes.drop_last(), scope, clean)
    }
}

/// The number of changes of a lane.
pub open spec fn change_count(changes: Seq<ReviewedChangeView>, lane: Seq<char>) -> nat
    decreases changes.len(),
{
    if changes.len() == 0 {
        0
    } else if changes.last().lane == lane {
        change_count(changes.drop_last(), lane) + 1
    } else {
        change_count(changes.drop_last(), lane)
    }
}

/// What can be done with a lane.
pub open spec fn lane_actions(lane: Seq<char>, clean_ops: nat) -> Seq<ReviewActionView> {
    if clean_ops > 0 {
        seq![groups::accept_clean_of(lane), groups::discard_of(lane)]
    } else {
        seq![groups::discard_of(lane)]
    }
}

/// What a lane does in all.
pub open spec fn lane_review(
    changes: Seq<ReviewedChangeView>,
    runs: Map<Seq<char>, RunStateView>,
    lane: Seq<char>,
) -> ReviewLaneSummaryView {
    let clean_ops = scoped_ops(changes, ScopeView::Lane(lane), true).len();
    ReviewLaneSummaryView {
        lane,
        changed_paths: change_count(changes, lane),
        clean_ops,
        conflicted_ops: scoped_ops(changes, ScopeView::Lane(lane), false).len(),
        last_run: if runs.contains_key(lane) {
            Some(runs[lane])
        } else {
            None
        },
        actions: lane_actions(lane, clean_ops),
    }
}

/// Whether a change is that of a lane at a path.
pub open spec fn is_at(change: ReviewedChangeView, path: Seq<char>, lane: Seq<char>) -> bool {
    change.change.path == path && change.lane == lane
}

/// The last change of a lane at a path.
pub open spec fn change_at(changes: Seq<ReviewedChangeView>, path: Seq<char>, lane: Seq<char>) -> Option<
    ReviewedChangeView,
>
    decreases changes.len(),
{
    if changes.len() == 0 {
        None
    } else if is_at(changes.last(), path, lane) {
        Some(changes.last())
    } else {
        change_at(changes.drop_last(), path, lane)
    }
}

/// What a change of a lane amounts to.
pub open spec fn lane_part(change: ReviewedChangeView) -> ReviewLaneView {
    ReviewLaneView {
        lane: change.lane,
        status: change.change.status,
        base_size: change.change.base_size,
        lane_size: change.change.lane_size,
        total_ops: change.ops.len(),
        clean_ops: picked(change, true).len(),
        conflicted_ops: picked(change, false).len(),
    }
}

/// The lanes that change a path.
pub open spec fn lanes_at(changes: Seq<ReviewedChangeView>, path: Seq<char>) -> Set<Seq<char>> {
    Set::new(
        |lane: Seq<char>|
            exists|i: int| 0 <= i < changes.len() && is_at(#[trigger] changes[i], path, lane),
    )
}

/// The paths that lanes change.
pub open spec fn changed_paths(changes: Seq<ReviewedChangeView>) -> Set<Seq<char>> {
    Set::new(
        |path: Seq<char>|
            exists|i: int| 0 <= i < changes.len() && (#[trigger] changes[i]).change.path == path,
    )
}

/// What the lanes do at a path.
pub open spec fn path_review(changes: Seq<ReviewedChangeView>, path: Seq<char>) -> ReviewPathView {
    let clean_ops = sorting::ordered::<ReviewOpOutput>(
        scoped_ops(changes, ScopeView::Path(path), true),
    );
    let conflicts = groups::conflict_groups(scoped_ops(changes, ScopeView::Path(path), false));
    ReviewPathView {
        path,
        lanes: text_map::listing(lanes_at(changes, path)).map_values(
            |lane: Seq<char>| lane_part(change_at(changes, path, lane)->0),
        ),
        clean_ops,
        ops: groups::ordered_path_ops(clean_ops, conflicts),
        conflicts,
    }
}

/// What lanes do, path by path.
pub open spec fn path_reviews(changes: Seq<ReviewedChangeView>) -> Seq<ReviewPathView> {
    text_map::listing(changed_paths(changes)).map_values(
        |path: Seq<char>| path_review(changes, path),
    )
}

/// The groups of all paths.
pub open spec fn all_conflicts(paths: Seq<ReviewPathView>) -> Seq<ReviewConflictView>
    decreases paths.len(),
{
    if paths.len() == 0 {
        Seq::empty()
    } else {
        all_conflicts(paths.drop_last()) + paths.last().conflicts
    }
}

/// The lanes of a list.
pub open spec fn lane_set(lanes: Seq<Seq<char>>) -> Set<Seq<char>> {
    Set::new(|lane: Seq<char>| lanes.contains(lane))
}

/// The review of lanes: its numbers, what each lane does in all, and what lanes do at each path.
pub open spec fn review_of(
    changes: Seq<ReviewedChangeView>,
    runs: Map<Seq<char>, RunStateView>,
    lanes: Seq<Seq<char>>,
) -> (ReviewSummaryView, Seq<ReviewLaneSummaryView>, Seq<ReviewPathView>) {
    let paths = path_reviews(changes);
    (
        ReviewSummaryView {
            lanes: lanes.len(),
            changed_paths: paths.len(),
            clean_ops: scoped_ops(changes, ScopeView::All, true).len(),
            conflicted_ops: scoped_ops(changes, ScopeView::All, false).len(),
            conflict_groups: all_conflicts(paths).len(),
        },
        text_map::listing(lane_set(lanes)).map_values(
            |lane: Seq<char>| lane_review(changes, runs, lane),
        ),
        paths,
    )
}

fn covers(scope: &Scope, change: &ReviewedChange) -> (r: bool)
    ensures
        r == in_scope(scope@, change@),
{
    match scope {
        Scope::All => true,
        Scope::Lane(lane) => text_eq(change.lane.as_str(), lane),
        Scope::Path(path) => text_eq(change.change.path.as_str(), path),
    }
}

pub(crate) fn pick_ops(change: &ReviewedChange, clean: bool, ops: &mut Vec<ReviewOpOutput>)
    requires
        review::fully_reviewed(change@),
    ensures
        sorting::views(final(ops)@) == sorting::views(old(ops)@) + picked(change@, clean),
{
    let ghost start = sorting::views(ops@);
    let mut i: usize = 0;
    assert(start + picked_upto(change@, clean, 0) =~= start);
    while i < change.ops.len()
        invariant
            i <= change.ops@.len(),
            review::fully_reviewed(change@),
            sorting::views(ops@) == start + picked_upto(change@, clean, i as int),
        decreases change.ops@.len() - i,
    {
        assert(change.change@.ops[i as int] == change.change.ops@[i as int]@);
        if (change.change.ops[i].conflicts_with.len() == 0) == clean {
            let op = change.ops[i].copied();
            proof {
                lists::lemma_views_push(ops@, op);
                assert(change@.ops[i as int] == op@);
                assert(start + picked_upto(change@, clean, i + 1) =~= (start + picked_upto(
                    change@,
                    clean,
                    i as int,
                )).push(op@));
            }
            ops.push(op);
        }
        i = i + 1;
    }
}

fn ops_in_scope(changes: &Vec<ReviewedChange>, scope: &Scope, clean: bool) -> (r: Vec<
    ReviewOpOutput,
>)
    requires
        forall|k: int| 0 <= k < changes@.len() ==> review::fully_reviewed((#[trigger] changes@[k])@),
    ensures
        sorting::views(r@) == scoped_ops(sorting::views(changes@), scope@, clean),
{
    let ghost all = sorting::views(changes@);
    let mut ops: Vec<ReviewOpOutput> = Vec::new();
    let mut i: usize = 0;
    assert(sorting::views(ops@) =~= Seq::empty());
    while i < changes.len()
        invariant
            i <= changes@.len(),
            all == sorting::views(changes@),
            forall|k: int|
                0 <= k < changes@.len() ==> review::fully_reviewed((#[trigger] changes@[k])@),
            sorting::views(ops@) == scoped_ops(all.subrange(0, i as int), scope@, clean),
        decreases changes@.len() - i,
    {
        proof {
            assert(all.subrange(0, i + 1).drop_last() =~= all.subrange(0, i as int));
            assert(all.subrange(0, i + 1).last() == changes@[i as int]@);
        }
        if covers(scope, &changes[i]) {
            pick_ops(&changes[i], clean, &mut ops);
        }
        i = i + 1;
    }
    assert(all.subrange(0, i as int) =~= all);
    ops
}

fn count_changes(changes: &Vec<ReviewedChange>, lane: &str) -> (r: usize)
    ensures
        r == change_count(sorting::views(changes@), lane@),
{
    let ghost all = sorting::views(changes@);
    let mut count: usize = 0;
    let mut i: usize = 0;
    let n: usize = changes.len();
    while i < n
        invariant
            i <= n == changes@.len(),
            all == sorting::views(changes@),
            count == change_count(all.subrange(0, i as int), lane@),
            count <= i,
        decreases n - i,
    {
        proof {
            assert(all.subrange(0, i + 1).drop_last() =~= all.subrange(0, i as int));
            assert(all.subrange(0, i + 1).last() == changes@[i as int]@);
        }
        if text_eq(changes[i].lane.as_str(), lane) {
            count = count + 1;
        }
        i = i + 1;
    }
    assert(all.subrange(0, i as int) =~= all);
    count
}

fn review_one_lane(
    changes: &Vec<ReviewedChange>,
    last_run: &TextMap<LaneRunState>,
    lane: &str,
) -> (r: ReviewLaneSummary)
    requires
        last_run.wf(),
        forall|k: int| 0 <= k < changes@.len() ==> review::fully_reviewed((#[trigger] changes@[k])@),
    ensures
        r@ == lane_review(sorting::views(changes@), repo::run_views(last_run@), lane@),
{
    let clean_ops: usize = ops_in_scope(changes, &Scope::Lane(lane), true).len();
    let conflicted_ops: usize = ops_in_scope(changes, &Scope::Lane(lane), false).len();
    let mut actions: Vec<ReviewActionOutput> = Vec::new();
    if clean_ops > 0 {
        actions.push(accept_clean_action(lane));
    }
    actions.push(discard_action(lane));
    assert(sorting::views(actions@) =~= lane_actions(lane@, clean_ops as nat));
    let state = match last_run.get(lane) {
        Some(state) => Some(state.copied()),
        None => None,
    };
    ReviewLaneSummary {
        lane: lane.to_owned(),
        changed_paths: count_changes(changes, lane),
        clean_ops,
        conflicted_ops,
        last_run: state,
        actions,
    }
}

fn review_all_lanes(
    changes: &Vec<ReviewedChange>,
    last_run: &TextMap<LaneRunState>,
    lanes: &Vec<String>,
) -> (r: Vec<ReviewLaneSummary>)
    requires
        last_run.wf(),
        forall|k: int| 0 <= k < changes@.len() ==> review::fully_reviewed((#[trigger] changes@[k])@),
    ensures
        sorting::views(r@) == review_of(
            sorting::views(changes@),
            repo::run_views(last_run@),
            text::texts(lanes@),
        ).1,
{
    let ghost all = text::texts(lanes@);
    let mut named: TextMap<()> = TextMap::new();
    let mut i: usize = 0;
    while i < lanes.len()
        invariant
            i <= lanes@.len(),
            all == text::texts(lanes@),
            named.wf(),
            forall|k: Seq<char>| #[trigger]
                named@.contains_key(k) <==> (exists|j: int| 0 <= j < i && #[trigger] all[j] == k),
        decreases lanes@.len() - i,
    {
        assert(all[i as int] == lanes@[i as int]@);
        let _ = named.insert(lanes[i].clone(), ());
        i = i + 1;
    }
    proof {
        named.lemma_wf();
        assert(named@.dom() =~= lane_set(all));
    }
    let ghost keys = named.keys();
    let mut r: Vec<ReviewLaneSummary> = Vec::new();
    let mut j: usize = 0;
    while j < named.len()
        invariant
            j <= named.pairs().len(),
            keys == named.keys(),
            last_run.wf(),
            forall|k: int|
                0 <= k < changes@.len() ==> review::fully_reviewed((#[trigger] changes@[k])@),
            r@.len() == j,
            forall|k: int|
                0 <= k < j ==> (#[trigger] r@[k])@ == lane_review(
                    sorting::views(changes@),
                    repo::run_views(last_run@),
                    keys[k],
                ),
        decreases named.pairs().len() - j,
    {
        r.push(review_one_lane(changes, last_run, named.key_at(j)));
        j = j + 1;
    }
    assert(sorting::views(r@) =~= review_of(
        sorting::views(changes@),
        repo::run_views(last_run@),
        all,
    ).1);
    r
}

fn part_of(change: &ReviewedChange) -> (r: ReviewLaneOutput)
    requires
        review::fully_reviewed(change@),
    ensures
        r@ == lane_part(change@),
{
    let mut clean: Vec<ReviewOpOutput> = Vec::new();
    let mut conflicted: Vec<ReviewOpOutput> = Vec::new();
    assert(sorting::views(clean@) =~= Seq::empty());
    assert(sorting::views(conflicted@) =~= Seq::empty());
    pick_ops(change, true, &mut clean);
    pick_ops(change, false, &mut conflicted);
    proof {
        assert(Seq::<ReviewOpView>::empty() + picked(change@, true) =~= picked(change@, true));
        assert(Seq::<ReviewOpView>::empty() + picked(change@, false) =~= picked(change@, false));
        assert(sorting::views(clean@).len() == clean@.len());
        assert(sorting::views(conflicted@).len() == conflicted@.len());
    }
    ReviewLaneOutput {
        lane: change.lane.clone(),
        status: change.change.status,
        base_size: change.change.base_size,
        lane_size: change.change.lane_size,
        total_ops: change.ops.len(),
        clean_ops: clean.len(),
        conflicted_ops: conflicted.len(),
    }
}

fn parts_at(changes: &Vec<ReviewedChange>, path: &str) -> (r: Vec<ReviewLaneOutput>)
    requires
        forall|k: int| 0 <= k < changes@.len() ==> review::fully_reviewed((#[trigger] changes@[k])@),
    ensures
        sorting::views(r@) == path_review(sorting::views(changes@), path@).lanes,
{
    let ghost all = sorting::views(changes@);
    let mut found: TextMap<usize> = TextMap::new();
    let mut i: usize = 0;
    let n: usize = changes.len();
    while i < n
        invariant
            i <= n == changes@.len(),
            all == sorting::views(changes@),
            found.wf(),
            forall|k: Seq<char>| #[trigger]
                found@.contains_key(k) <==> (exists|j: int|
                    0 <= j < i && is_at(#[trigger] all[j], path@, k)),
            forall|k: Seq<char>| #[trigger]
                found@.contains_key(k) ==> found@[k] < i && change_at(
                    all.subrange(0, i as int),
                    path@,
                    k,
                ) == Some(all[found@[k] as int]),
        decreases n - i,
    {
        let change = &changes[i];
        let ghost before = found@;
        proof {
            assert(all.subrange(0, i + 1).drop_last() =~= all.subrange(0, i as int));
            assert(all.subrange(0, i + 1).last() == change@);
            assert(all[i as int] == change@);
        }
        if text_eq(change.change.path.as_str(), path) {
            let _ = found.insert(change.lane.clone(), i);
            assert(is_at(all[i as int], path@, change.lane@));
        }
        i = i + 1;
        proof {
            assert forall|k: Seq<char>| #[trigger] found@.contains_key(k) implies found@[k] < i
                && change_at(all.subrange(0, i as int), path@, k) == Some(
                all[found@[k] as int],
            ) by {
                if found@ != before && k == change.lane@ {
                } else {
                    assert(before.contains_key(k));
                    assert(before[k] < i - 1);
                    assert(!is_at(all[i - 1], path@, k));
                }
            }
        }
    }
    proof {
        assert(all.subrange(0, i as int) =~= all);
        found.lemma_wf();
        assert(found@.dom() =~= lanes_at(all, path@));
    }
    let ghost keys = found.keys();
    let mut r: Vec<ReviewLaneOutput> = Vec::new();
    let mut j: usize = 0;
    while j < found.len()
        invariant
            j <= found.pairs().len(),
            found.wf(),
            keys == found.keys(),
            all == sorting::views(changes@),
            forall|k: int|
                0 <= k < changes@.len() ==> review::fully_reviewed((#[trigger] changes@[k])@),
            forall|k: Seq<char>| #[trigger]
                found@.contains_key(k) ==> found@[k] < changes@.len() && change_at(all, path@, k)
                    == Some(all[found@[k] as int]),
            r@.len() == j,
            forall|k: int|
                0 <= k < j ==> (#[trigger] r@[k])@ == lane_part(change_at(all, path@, keys[k])->0),
        decreases found.pairs().len() - j,
    {
        proof {
            found.lemma_wf();
            assert(found@.contains_key(found.pairs()[j as int].0));
        }
        let at: usize = *found.value_at(j);
        assert(all[at as int] == changes@[at as int]@);
        r.push(part_of(&changes[at]));
        j = j + 1;
    }
    assert(sorting::views(r@) =~= path_review(all, path@).lanes);
    r
}

fn review_one_path(changes: &Vec<ReviewedChange>, path: &str) -> (r: ReviewPathOutput)
    requires
        forall|k: int| 0 <= k < changes@.len() ==> review::fully_reviewed((#[trigger] changes@[k])@),
    ensures
        r@ == path_review(sorting::views(changes@), path@),
{
    let clean_ops = sort_list(ops_in_scope(changes, &Scope::Path(path), true));
    let conflicted = ops_in_scope(changes, &Scope::Path(path), false);
    let conflicts = conflict_groups_for_path(&conflicted);
    let ops = ordered_ops_for_path(&clean_ops, &conflicts);
    ReviewPathOutput { path: path.to_owned(), lanes: parts_at(changes, path), clean_ops, ops, conflicts }
}

fn review_all_paths(changes: &Vec<ReviewedChange>) -> (r: Vec<ReviewPathOutput>)
    requires
        forall|k: int| 0 <= k < changes@.len() ==> review::fully_reviewed((#[trigger] changes@[k])@),
    ensures
        sorting::views(r@) == path_reviews(sorting::views(changes@)),
{
    let ghost all = sorting::views(changes@);
    let mut named: TextMap<()> = TextMap::new();
    let mut i: usize = 0;
    while i < changes.len()
        invariant
            i <= changes@.len(),
            all == sorting::views(changes@),
            named.wf(),
            forall|k: Seq<char>| #[trigger]
                named@.contains_key(k) <==> (exists|j: int|
                    0 <= j < i && (#[trigger] all[j]).change.path == k),
        decreases changes@.len() - i,
    {
        assert(all[i as int].change.path == changes@[i as int].change.path@);
        let _ = named.insert(changes[i].change.path.clone(), ());
        i = i + 1;
    }
    proof {
        named.lemma_wf();
        assert(named@.dom() =~= changed_paths(all));
    }
    let ghost keys = named.keys();
    let mut r: Vec<ReviewPathOutput> = Vec::new();
    let mut j: usize = 0;
    while j < named.len()
        invariant
            j <= named.pairs().len(),
            keys == named.keys(),
            all == sorting::views(changes@),
            forall|k: int|
                0 <= k < changes@.len() ==> review::fully_reviewed((#[trigger] changes@[k])@),
            r@.len() == j,
            forall|k: int| 0 <= k < j ==> (#[trigger] r@[k])@ == path_review(all, keys[k]),
        decreases named.pairs().len() - j,
    {
        r.push(review_one_path(changes, named.key_at(j)));
        j = j + 1;
    }
    assert(sorting::views(r@) =~= path_reviews(all));
    r
}

fn count_conflicts(paths: &Vec<ReviewPathOutput>) -> (r: usize)
    ensures
        r == all_conflicts(sorting::views(paths@)).len(),
{
    let ghost all = sorting::views(paths@);
    let mut found: Vec<&ReviewConflictOutput> = Vec::new();
    let mut i: usize = 0;
    while i < paths.len()
        invariant
            i <= paths@.len(),
            all == sorting::views(paths@),
            found@.len() == all_conflicts(all.subrange(0, i as int)).len(),
        decreases paths@.len() - i,
    {
        let ghost before = found@.len();
        proof {
            assert(all.subrange(0, i + 1).drop_last() =~= all.subrange(0, i as int));
            assert(all.subrange(0, i + 1).last() == paths@[i as int]@);
        }
        let path = &paths[i];
        let mut j: usize = 0;
        while j < path.conflicts.len()
            invariant
                j <= path.conflicts@.len(),
                found@.len() == before + j,
            decreases path.conflicts@.len() - j,
        {
            found.push(&path.conflicts[j]);
            j = j + 1;
        }
        i = i + 1;
    }
    assert(all.subrange(0, i as int) =~= all);
    found.len()
}

/// A review without the places it was made in.
#[derive(Debug, PartialEq, Eq)]
pub struct Review {
    pub summary: ReviewSummary,
    pub lanes: Vec<ReviewLaneSummary>,
    pub paths: Vec<ReviewPathOutput>,
}

impl View for Review {
    type V = (ReviewSummaryView, Seq<ReviewLaneSummaryView>, Seq<ReviewPathView>);

    open spec fn view(&self) -> (
        ReviewSummaryView,
        Seq<ReviewLaneSummaryView>,
        Seq<ReviewPathView>,
    ) {
        (self.summary@, sorting::views(self.lanes@), sorting::views(self.paths@))
    }
}

/// Reviews lanes: what each of them changes, what of it is clean, and where they conflict.
pub fn collect_review(
    fs: &LaneFs,
    last_run: &TextMap<LaneRunState>,
    lanes: &Vec<String>,
) -> (r: Result<Review, CliError>)
    requires
        fs.wf(),
        last_run.wf(),
    ensures
        match review::reviewed_lanes(fs@, text::texts(lanes@)) {
            Err(error) => r is Err && r->Err_0@ == vfs::fs_error_message(error),
            Ok(changes) => r is Ok && r->Ok_0@ == review_of(
                changes,
                repo::run_views(last_run@),
                text::texts(lanes@),
            ),
        },
{
    let changes = match review_changes(fs, lanes) {
        Err(error) => {
            return Err(error);
        },
        Ok(changes) => changes,
    };
    let paths = review_all_paths(&changes);
    let clean_ops: usize = ops_in_scope(&changes, &Scope::All, true).len();
    let conflicted_ops: usize = ops_in_scope(&changes, &Scope::All, false).len();
    let conflict_groups: usize = count_conflicts(&paths);
    let summary = ReviewSummary {
        lanes: lanes.len(),
        changed_paths: paths.len(),
        clean_ops,
        conflicted_ops,
        conflict_groups,
    };
    let lane_summaries = review_all_lanes(&changes, last_run, lanes);
    Ok(Review { summary, lanes: lane_summaries, paths })
}

proof fn lemma_picked_upto(change: ReviewedChangeView, n: int)
    requires
        0 <= n <= change.ops.len(),
    ensures
        picked_upto(change, true, n).len() + picked_upto(change, false, n).len() == n,
    decreases n,
{
    if n > 0 {
        lemma_picked_upto(change, n - 1);
    }
}

/// Every operation of a change is either clean or conflicted.
pub proof fn law_ops_are_clean_or_conflicted(change: ReviewedChangeView)
    ensures
        lane_part(change).clean_ops + lane_part(change).conflicted_ops == lane_part(change).total_ops,
{
    lemma_picked_upto(change, change.ops.len() as int);
}

} // verus!
