//! The numbers of a review add up.
use vstd::prelude::*;

use crate::cli::collect;
use crate::cli::collect::ScopeView;
use crate::cli::groups;
use crate::cli::output::{
    ReviewConflictOutput, ReviewConflictView, ReviewLaneSummaryView, ReviewOpOutput, ReviewOpView,
    ReviewPathView,
};
use crate::cli::review;
use crate::cli::review::ReviewedChangeView;
use crate::lane_file::Entry;
use crate::path_laws;
use crate::repo;
use crate::repo::Repo;
use crate::repo_laws;
use crate::sorting;
use crate::text;
use crate::text_map;
use crate::types::{OpSummaryView, RunStateView};
use crate::upkeep;
use crate::vfs;
use crate::vfs::{ChangeView, Fs, LaneFsErrorView};

verus! {

/// The clean operations of all lanes of a review.
pub open spec fn clean_total(lanes: Seq<ReviewLaneSummaryView>) -> nat
    decreases lanes.len(),
{
    if lanes.len() == 0 {
        0
    } else {
        clean_total(lanes.drop_last()) + lanes.last().clean_ops
    }
}

/// The conflicted operations of all lanes of a review.
pub open spec fn conflicted_total(lanes: Seq<ReviewLaneSummaryView>) -> nat
    decreases lanes.len(),
{
    if lanes.len() == 0 {
        0
    } else {
        conflicted_total(lanes.drop_last()) + lanes.last().conflicted_ops
    }
}

/// The operations of all groups of a list.
pub open spec fn group_total(conflicts: Seq<ReviewConflictView>) -> nat
    decreases conflicts.len(),
{
    if conflicts.len() == 0 {
        0
    } else {
        group_total(conflicts.drop_last()) + conflicts.last().ops.len()
    }
}

/// The operations of all groups of all paths of a review.
pub open spec fn grouped_total(paths: Seq<ReviewPathView>) -> nat
    decreases paths.len(),
{
    if paths.len() == 0 {
        0
    } else {
        grouped_total(paths.drop_last()) + group_total(paths.last().conflicts)
    }
}

/// The groups of all paths of a review.
pub open spec fn groups_total(paths: Seq<ReviewPathView>) -> nat
    decreases paths.len(),
{
    if paths.len() == 0 {
        0
    } else {
        groups_total(paths.drop_last()) + paths.last().conflicts.len()
    }
}

/// A number for each text, added up.
spec fn total(list: Seq<Seq<char>>, f: spec_fn(Seq<char>) -> nat) -> nat
    decreases list.len(),
{
    if list.len() == 0 {
        0
    } else {
        total(list.drop_last(), f) + f(list.last())
    }
}

/// Where the number of one text grows, the sum grows by as much.
proof fn lemma_total_grows(
    list: Seq<Seq<char>>,
    f: spec_fn(Seq<char>) -> nat,
    g: spec_fn(Seq<char>) -> nat,
    m: Seq<char>,
    by: nat,
)
    requires
        list.no_duplicates(),
        forall|k: Seq<char>| #[trigger]
            g(k) == f(k) + (if k == m {
                by
            } else {
                0
            }),
    ensures
        total(list, g) == total(list, f) + (if list.contains(m) {
            by
        } else {
            0
        }),
    decreases list.len(),
{
    if list.len() > 0 {
        let rest = list.drop_last();
        assert(forall|i: int| 0 <= i < rest.len() ==> rest[i] == list[i]);
        lemma_total_grows(rest, f, g, m, by);
        assert(g(list.last()) == f(list.last()) + (if list.last() == m {
            by
        } else {
            0
        }));
        if rest.contains(m) {
            let i = choose|i: int| 0 <= i < rest.len() && rest[i] == m;
            assert(list[i] == m);
        } else if list.contains(m) {
            let i = choose|i: int| 0 <= i < list.len() && list[i] == m;
            assert(i == list.len() - 1) by {
                if i < rest.len() {
                    assert(rest[i] == m);
                }
            }
        }
        if list.last() == m {
            assert(list[list.len() - 1] == m);
            if rest.contains(m) {
                let i = choose|i: int| 0 <= i < rest.len() && rest[i] == m;
                assert(list[i] == list[list.len() - 1]);
            }
        }
    }
}

proof fn lemma_total_zero(list: Seq<Seq<char>>, f: spec_fn(Seq<char>) -> nat)
    requires
        forall|k: Seq<char>| #[trigger] f(k) == 0,
    ensures
        total(list, f) == 0,
    decreases list.len(),
{
    if list.len() > 0 {
        lemma_total_zero(list.drop_last(), f);
        assert(f(list.last()) == 0);
    }
}

/// The operations of all changes are those of each lane, added up.
proof fn lemma_lanes_add_up(changes: Seq<ReviewedChangeView>, list: Seq<Seq<char>>, clean: bool)
    requires
        list.no_duplicates(),
        forall|i: int| 0 <= i < changes.len() ==> list.contains((#[trigger] changes[i]).lane),
    ensures
        total(list, |k: Seq<char>| collect::scoped_ops(changes, ScopeView::Lane(k), clean).len())
            == collect::scoped_ops(changes, ScopeView::All, clean).len(),
    decreases changes.len(),
{
    let g = |k: Seq<char>| collect::scoped_ops(changes, ScopeView::Lane(k), clean).len();
    if changes.len() == 0 {
        lemma_total_zero(list, g);
    } else {
        let rest = changes.drop_last();
        let f = |k: Seq<char>| collect::scoped_ops(rest, ScopeView::Lane(k), clean).len();
        let m = changes.last().lane;
        let by = collect::picked(changes.last(), clean).len();
        assert(forall|i: int| 0 <= i < rest.len() ==> rest[i] == changes[i]);
        lemma_lanes_add_up(rest, list, clean);
        assert forall|k: Seq<char>| #[trigger] g(k) == f(k) + (if k == m {
            by
        } else {
            0
        }) by {}
        lemma_total_grows(list, f, g, m, by);
        assert(list.contains(changes[changes.len() - 1].lane));
    }
}

/// The operations of all changes are those of each path, added up.
proof fn lemma_paths_add_up(changes: Seq<ReviewedChangeView>, list: Seq<Seq<char>>, clean: bool)
    requires
        list.no_duplicates(),
        forall|i: int| 0 <= i < changes.len() ==> list.contains((#[trigger] changes[i]).change.path),
    ensures
        total(list, |k: Seq<char>| collect::scoped_ops(changes, ScopeView::Path(k), clean).len())
            == collect::scoped_ops(changes, ScopeView::All, clean).len(),
    decreases changes.len(),
{
    let g = |k: Seq<char>| collect::scoped_ops(changes, ScopeView::Path(k), clean).len();
    if changes.len() == 0 {
        lemma_total_zero(list, g);
    } else {
        let rest = changes.drop_last();
        let f = |k: Seq<char>| collect::scoped_ops(rest, ScopeView::Path(k), clean).len();
        let m = changes.last().change.path;
        let by = collect::picked(changes.last(), clean).len();
        assert(forall|i: int| 0 <= i < rest.len() ==> rest[i] == changes[i]);
        lemma_paths_add_up(rest, list, clean);
        assert forall|k: Seq<char>| #[trigger] g(k) == f(k) + (if k == m {
            by
        } else {
            0
        }) by {}
        lemma_total_grows(list, f, g, m, by);
        assert(list.contains(changes[changes.len() - 1].change.path));
    }
}

/// The members of the groups that the first `n` operations open, among the first `m` operations.
spec fn opened_total(ops: Seq<ReviewOpView>, n: int, m: int) -> nat
    decreases n,
{
    if n <= 0 {
        0
    } else if groups::opens_group(ops, n - 1) {
        opened_total(ops, n - 1, m) + groups::members_upto(ops, n - 1, m).len()
    } else {
        opened_total(ops, n - 1, m)
    }
}

/// One more operation is in one more group: in that which `k` opens, and in no other.
proof fn lemma_one_more_member(ops: Seq<ReviewOpView>, n: int, m: int, k: int)
    requires
        0 <= n <= ops.len(),
        0 < m <= ops.len(),
        0 <= k < ops.len(),
        groups::opens_group(ops, k),
        groups::grouped(ops, k, m - 1),
    ensures
        opened_total(ops, n, m) == opened_total(ops, n, m - 1) + (if k < n {
            1nat
        } else {
            0
        }),
    decreases n,
{
    if n > 0 {
        lemma_one_more_member(ops, n - 1, m, k);
        if groups::opens_group(ops, n - 1) && groups::grouped(ops, n - 1, m - 1) {
            groups::law_groups_are_disjoint(ops, n - 1, k, m - 1);
        }
    }
}

/// Every operation is in one group.
proof fn lemma_groups_add_up(ops: Seq<ReviewOpView>, m: int)
    requires
        0 <= m <= ops.len(),
    ensures
        opened_total(ops, ops.len() as int, m) == m,
    decreases m,
{
    if m == 0 {
        lemma_no_members(ops, ops.len() as int);
    } else {
        lemma_groups_add_up(ops, m - 1);
        groups::law_groups_cover(ops, m - 1);
        let k = choose|k: int|
            0 <= k <= m - 1 && #[trigger] groups::opens_group(ops, k) && groups::grouped(
                ops,
                k,
                m - 1,
            );
        lemma_one_more_member(ops, ops.len() as int, m, k);
    }
}

proof fn lemma_no_members(ops: Seq<ReviewOpView>, n: int)
    ensures
        opened_total(ops, n, 0) == 0,
    decreases n,
{
    if n > 0 {
        lemma_no_members(ops, n - 1);
    }
}

/// The groups that the first `n` operations open hold their members.
proof fn lemma_groups_upto_total(ops: Seq<ReviewOpView>, n: int)
    requires
        0 <= n <= ops.len(),
    ensures
        group_total(groups::groups_upto(ops, n)) == opened_total(ops, n, ops.len() as int),
    decreases n,
{
    if n > 0 {
        lemma_groups_upto_total(ops, n - 1);
        if groups::opens_group(ops, n - 1) {
            let before = groups::groups_upto(ops, n - 1);
            let group = groups::conflict_of(groups::group_of(ops, n - 1));
            assert(before.push(group).drop_last() =~= before);
            sorting::law_ordered::<ReviewOpOutput>(
                groups::members_upto(ops, n - 1, ops.len() as int),
            );
        }
    }
}

proof fn lemma_group_total_folds(conflicts: Seq<ReviewConflictView>)
    ensures
        group_total(conflicts) == conflicts.fold_left(
            0nat,
            |sum: nat, group: ReviewConflictView| sum + group.ops.len(),
        ),
    decreases conflicts.len(),
{
    if conflicts.len() > 0 {
        lemma_group_total_folds(conflicts.drop_last());
    }
}

/// The groups into which operations are divided hold all of them.
pub proof fn law_groups_hold_every_op(ops: Seq<ReviewOpView>)
    ensures
        group_total(groups::conflict_groups(ops)) == ops.len(),
{
    let found = groups::groups_upto(ops, ops.len() as int);
    let add = |sum: nat, group: ReviewConflictView| sum + group.ops.len();
    lemma_groups_upto_total(ops, ops.len() as int);
    lemma_groups_add_up(ops, ops.len() as int);
    sorting::law_ordered::<ReviewConflictOutput>(found);
    lemma_group_total_folds(found);
    lemma_group_total_folds(groups::conflict_groups(ops));
    assert(vstd::seq_lib::commutative_foldl(add));
    vstd::seq_lib::lemma_fold_left_permutation(groups::conflict_groups(ops), found, add, 0nat);
}

/// The lane summaries of a review, added up lane by lane.
proof fn lemma_lane_totals(
    changes: Seq<ReviewedChangeView>,
    runs: Map<Seq<char>, RunStateView>,
    list: Seq<Seq<char>>,
)
    ensures
        ({
            let lanes = list.map_values(
                |lane: Seq<char>| collect::lane_review(changes, runs, lane),
            );
            &&& clean_total(lanes) == total(
                list,
                |k: Seq<char>| collect::scoped_ops(changes, ScopeView::Lane(k), true).len(),
            )
            &&& conflicted_total(lanes) == total(
                list,
                |k: Seq<char>| collect::scoped_ops(changes, ScopeView::Lane(k), false).len(),
            )
        }),
    decreases list.len(),
{
    let lanes = list.map_values(|lane: Seq<char>| collect::lane_review(changes, runs, lane));
    if list.len() > 0 {
        lemma_lane_totals(changes, runs, list.drop_last());
        assert(lanes.drop_last() =~= list.drop_last().map_values(
            |lane: Seq<char>| collect::lane_review(changes, runs, lane),
        ));
    }
}

/// The path reviews of a review, added up path by path.
proof fn lemma_path_totals(changes: Seq<ReviewedChangeView>, list: Seq<Seq<char>>)
    ensures
        ({
            let paths = list.map_values(|path: Seq<char>| collect::path_review(changes, path));
            &&& grouped_total(paths) == total(
                list,
                |k: Seq<char>| collect::scoped_ops(changes, ScopeView::Path(k), false).len(),
            )
            &&& groups_total(paths) == collect::all_conflicts(paths).len()
        }),
    decreases list.len(),
{
    let paths = list.map_values(|path: Seq<char>| collect::path_review(changes, path));
    if list.len() > 0 {
        lemma_path_totals(changes, list.drop_last());
        assert(paths.drop_last() =~= list.drop_last().map_values(
            |path: Seq<char>| collect::path_review(changes, path),
        ));
        law_groups_hold_every_op(
            collect::scoped_ops(changes, ScopeView::Path(list.last()), false),
        );
    }
}

/// A list in increasing order has no duplicates.
proof fn lemma_sorted_is_distinct(list: Seq<Seq<char>>)
    requires
        text_map::sorted_texts(list),
    ensures
        list.no_duplicates(),
{
    assert forall|i: int, j: int| 0 <= i < list.len() && 0 <= j < list.len() && i != j implies list[i]
        != list[j] by {
        text::lemma_text_lt_irreflexive(list[i]);
        if i < j {
            assert(text::text_lt(list[i], list[j]));
        } else {
            assert(text::text_lt(list[j], list[i]));
        }
    }
}

/// Finitely many changes are at finitely many paths.
proof fn lemma_changed_paths_listed(changes: Seq<ReviewedChangeView>)
    ensures
        text_map::is_listing(
            text_map::listing(collect::changed_paths(changes)),
            collect::changed_paths(changes),
        ),
{
    let paths = changes.map_values(|change: ReviewedChangeView| change.change.path);
    vstd::seq_lib::seq_to_set_is_finite(paths);
    assert forall|k: Seq<char>| #[trigger] paths.to_set().contains(k) <==> collect::changed_paths(
        changes,
    ).contains(k) by {
        if paths.contains(k) {
            let i = choose|i: int| 0 <= i < paths.len() && paths[i] == k;
            assert(changes[i].change.path == k);
        }
        if collect::changed_paths(changes).contains(k) {
            let i = choose|i: int| 0 <= i < changes.len() && (#[trigger] changes[i]).change.path == k;
            assert(paths[i] == k);
        }
    }
    assert(paths.to_set() =~= collect::changed_paths(changes));
    text_map::lemma_listing_exists(collect::changed_paths(changes));
}

/// The changes of lanes belong to them.
proof fn lemma_changes_have_lanes(fs: Fs, lanes: Seq<Seq<char>>, changes: Seq<ReviewedChangeView>)
    requires
        review::reviewed_lanes(fs, lanes) == Ok::<Seq<ReviewedChangeView>, LaneFsErrorView>(changes),
    ensures
        forall|i: int| 0 <= i < changes.len() ==> lanes.contains((#[trigger] changes[i]).lane),
    decreases lanes.len(),
{
    if lanes.len() > 0 {
        let rest = lanes.drop_last();
        let before = review::reviewed_lanes(fs, rest)->Ok_0;
        let found = review::lane_changes(fs, lanes.last())->Ok_0;
        let more = review::reviewed_changes(fs, lanes.last(), found)->Ok_0;
        lemma_changes_have_lanes(fs, rest, before);
        lemma_changes_of_lane(fs, lanes.last(), found, more);
        assert forall|i: int| 0 <= i < changes.len() implies lanes.contains(
            (#[trigger] changes[i]).lane,
        ) by {
            if i < before.len() {
                assert(rest.contains(before[i].lane));
                let j = choose|j: int| 0 <= j < rest.len() && rest[j] == before[i].lane;
                assert(lanes[j] == before[i].lane);
            } else {
                assert(changes[i] == more[i - before.len()]);
                assert(lanes[lanes.len() - 1] == lanes.last());
            }
        }
    }
}

proof fn lemma_changes_of_lane(
    fs: Fs,
    lane: Seq<char>,
    found: Seq<ChangeView>,
    changes: Seq<ReviewedChangeView>,
)
    requires
        review::reviewed_changes(fs, lane, found) == Ok::<Seq<ReviewedChangeView>, LaneFsErrorView>(
            changes,
        ),
    ensures
        forall|i: int| 0 <= i < changes.len() ==> (#[trigger] changes[i]).lane == lane,
    decreases found.len(),
{
    if found.len() > 0 {
        let before = review::reviewed_changes(fs, lane, found.drop_last())->Ok_0;
        lemma_changes_of_lane(fs, lane, found.drop_last(), before);
        assert forall|i: int| 0 <= i < changes.len() implies (#[trigger] changes[i]).lane == lane by {
            if i < before.len() {
                assert(changes[i] == before[i]);
            }
        }
    }
}

/// The numbers of a review of different lanes add up: each lane is summed up once, the clean and
/// the conflicted operations are those of the lanes, every conflicted operation is in a group of
/// its path, and lanes and paths are in order.
pub proof fn law_review_adds_up(
    fs: Fs,
    changes: Seq<ReviewedChangeView>,
    runs: Map<Seq<char>, RunStateView>,
    lanes: Seq<Seq<char>>,
)
    requires
        lanes.no_duplicates(),
        review::reviewed_lanes(fs, lanes) == Ok::<Seq<ReviewedChangeView>, LaneFsErrorView>(changes),
    ensures
        ({
            let (summary, by_lane, by_path) = collect::review_of(changes, runs, lanes);
            &&& summary.lanes == lanes.len()
            &&& summary.lanes == by_lane.len()
            &&& summary.changed_paths == by_path.len()
            &&& summary.clean_ops == clean_total(by_lane)
            &&& summary.conflicted_ops == conflicted_total(by_lane)
            &&& summary.conflicted_ops == grouped_total(by_path)
            &&& summary.conflict_groups == groups_total(by_path)
            &&& forall|i: int, j: int|
                0 <= i < j < by_lane.len() ==> text::text_lt(
                    (#[trigger] by_lane[i]).lane,
                    (#[trigger] by_lane[j]).lane,
                )
            &&& forall|i: int, j: int|
                0 <= i < j < by_path.len() ==> text::text_lt(
                    (#[trigger] by_path[i]).path,
                    (#[trigger] by_path[j]).path,
                )
        }),
{
    let set = collect::lane_set(lanes);
    let lane_list = text_map::listing(set);
    vstd::seq_lib::seq_to_set_is_finite(lanes);
    assert(lanes.to_set() =~= set);
    text_map::lemma_listing_exists(set);
    lemma_sorted_is_distinct(lane_list);
    assert(lane_list.to_set() =~= set);
    lane_list.unique_seq_to_set();
    lanes.unique_seq_to_set();
    lemma_changes_have_lanes(fs, lanes, changes);
    assert forall|i: int| 0 <= i < changes.len() implies lane_list.contains(
        (#[trigger] changes[i]).lane,
    ) by {
        assert(lanes.contains(changes[i].lane));
        assert(set.contains(changes[i].lane));
    }
    lemma_lanes_add_up(changes, lane_list, true);
    lemma_lanes_add_up(changes, lane_list, false);
    lemma_lane_totals(changes, runs, lane_list);
    let path_list = text_map::listing(collect::changed_paths(changes));
    lemma_changed_paths_listed(changes);
    lemma_sorted_is_distinct(path_list);
    assert forall|i: int| 0 <= i < changes.len() implies path_list.contains(
        (#[trigger] changes[i]).change.path,
    ) by {
        assert(collect::changed_paths(changes).contains(changes[i].change.path));
    }
    lemma_paths_add_up(changes, path_list, false);
    lemma_path_totals(changes, path_list);
}

/// The previews of a change are those of its operations.
pub open spec fn shows_its_ops(change: ReviewedChangeView) -> bool {
    &&& review::fully_reviewed(change)
    &&& forall|i: int|
        0 <= i < change.ops.len() ==> (#[trigger] change.ops[i]).op == change.change.ops[i]
}

/// A previewed operation is the one at its place.
proof fn lemma_reviewed_op_at(fs: Fs, list: Seq<OpSummaryView>, ops: Seq<ReviewOpView>, i: int)
    requires
        review::reviewed_ops(fs, list) == Ok::<Seq<ReviewOpView>, LaneFsErrorView>(ops),
        0 <= i < list.len(),
    ensures
        ops.len() == list.len(),
        review::reviewed_op(fs, list[i]) == Ok::<ReviewOpView, LaneFsErrorView>(ops[i]),
    decreases list.len(),
{
    let before = review::reviewed_ops(fs, list.drop_last())->Ok_0;
    if list.len() > 1 {
        lemma_reviewed_op_at(
            fs,
            list.drop_last(),
            before,
            if i < list.len() - 1 {
                i
            } else {
                0
            },
        );
    }
}

/// Where the operations of a change can be previewed, the previews are of those operations.
proof fn lemma_change_shows_its_ops(
    fs: Fs,
    lane: Seq<char>,
    raw: Seq<char>,
    change: ReviewedChangeView,
)
    requires
        upkeep::repo_tidy(fs.repo),
        vfs::fs_change(fs, lane, raw) == Ok::<Option<ChangeView>, LaneFsErrorView>(
            Some(change.change),
        ),
        review::reviewed_ops(fs, change.change.ops) == Ok::<Seq<ReviewOpView>, LaneFsErrorView>(
            change.ops,
        ),
    ensures
        shows_its_ops(change),
{
    let path = vfs::repo_path(raw)->Ok_0;
    let base = vfs::base_at(fs.files, path);
    let list = change.change.ops;
    assert(list == repo::repo_change_ops(fs.repo, path, lane, base)->Ok_0);
    if list.len() > 0 {
        lemma_reviewed_op_at(fs, list, change.ops, 0);
    }
    assert forall|i: int| 0 <= i < list.len() implies (#[trigger] change.ops[i]).op == list[i] by {
        lemma_reviewed_op_at(fs, list, change.ops, i);
        lemma_listed_place(fs.repo, path, lane, base, i);
        assert(vfs::repo_path(path) is Ok);
        assert(text::trim_text(path).len() > 0);
        path_laws::law_normalization_is_idempotent(raw, path);
        repo_laws::lemma_detail_is_listed(fs.repo, path, lane, base, i);
    }
}

/// A listed operation names its lane and its path.
proof fn lemma_listed_place(
    state: Repo,
    path: Seq<char>,
    lane: Seq<char>,
    base: Option<Seq<u8>>,
    i: int,
)
    requires
        repo::repo_change_ops(state, path, lane, base) is Ok,
        0 <= i < repo::repo_change_ops(state, path, lane, base)->Ok_0.len(),
    ensures
        repo::repo_change_ops(state, path, lane, base)->Ok_0[i].lane == lane,
        repo::repo_change_ops(state, path, lane, base)->Ok_0[i].path == path,
{
    let file = state.files[path];
    match file.lanes[lane] {
        Entry::Present(list) => {
            assert(0 <= i < list.len());
        },
        Entry::Deleted => {},
    }
}

/// Each change of a lane is one at some path.
proof fn lemma_changes_are_at_paths(
    fs: Fs,
    lane: Seq<char>,
    paths: Seq<Seq<char>>,
    found: Seq<ChangeView>,
)
    requires
        review::changes_at(fs, lane, paths) == Ok::<Seq<ChangeView>, LaneFsErrorView>(found),
    ensures
        forall|i: int|
            0 <= i < found.len() ==> exists|raw: Seq<char>| #[trigger]
                vfs::fs_change(fs, lane, raw) == Ok::<Option<ChangeView>, LaneFsErrorView>(
                    Some(#[trigger] found[i]),
                ),
    decreases paths.len(),
{
    if paths.len() > 0 {
        let before = review::changes_at(fs, lane, paths.drop_last())->Ok_0;
        lemma_changes_are_at_paths(fs, lane, paths.drop_last(), before);
        assert forall|i: int| 0 <= i < found.len() implies exists|raw: Seq<char>| #[trigger]
            vfs::fs_change(fs, lane, raw) == Ok::<Option<ChangeView>, LaneFsErrorView>(
                Some(#[trigger] found[i]),
            ) by {
            if i < before.len() {
                assert(found[i] == before[i]);
            } else {
                assert(vfs::fs_change(fs, lane, paths.last()) == Ok::<
                    Option<ChangeView>,
                    LaneFsErrorView,
                >(Some(found[i])));
            }
        }
    }
}

proof fn lemma_lane_shows_its_ops(
    fs: Fs,
    lane: Seq<char>,
    found: Seq<ChangeView>,
    changes: Seq<ReviewedChangeView>,
)
    requires
        upkeep::repo_tidy(fs.repo),
        forall|i: int|
            0 <= i < found.len() ==> exists|raw: Seq<char>| #[trigger]
                vfs::fs_change(fs, lane, raw) == Ok::<Option<ChangeView>, LaneFsErrorView>(
                    Some(#[trigger] found[i]),
                ),
        review::reviewed_changes(fs, lane, found) == Ok::<Seq<ReviewedChangeView>, LaneFsErrorView>(
            changes,
        ),
    ensures
        forall|i: int| 0 <= i < changes.len() ==> shows_its_ops(#[trigger] changes[i]),
    decreases found.len(),
{
    if found.len() > 0 {
        let rest = found.drop_last();
        let before = review::reviewed_changes(fs, lane, rest)->Ok_0;
        assert forall|i: int| 0 <= i < rest.len() implies exists|raw: Seq<char>| #[trigger]
            vfs::fs_change(fs, lane, raw) == Ok::<Option<ChangeView>, LaneFsErrorView>(
                Some(#[trigger] rest[i]),
            ) by {
            assert(rest[i] == found[i]);
        }
        lemma_lane_shows_its_ops(fs, lane, rest, before);
        let last = found[found.len() - 1];
        let raw = choose|raw: Seq<char>| #[trigger]
            vfs::fs_change(fs, lane, raw) == Ok::<Option<ChangeView>, LaneFsErrorView>(Some(last));
        lemma_change_shows_its_ops(fs, lane, raw, changes.last());
        assert forall|i: int| 0 <= i < changes.len() implies shows_its_ops(#[trigger] changes[i]) by {
            if i < before.len() {
                assert(changes[i] == before[i]);
            }
        }
    }
}

/// A review of a repo whose operations are as lanes write them previews the listed operations.
pub proof fn law_review_previews_the_listed_ops(
    fs: Fs,
    changes: Seq<ReviewedChangeView>,
    lanes: Seq<Seq<char>>,
)
    requires
        upkeep::repo_tidy(fs.repo),
        review::reviewed_lanes(fs, lanes) == Ok::<Seq<ReviewedChangeView>, LaneFsErrorView>(changes),
    ensures
        forall|i: int| 0 <= i < changes.len() ==> shows_its_ops(#[trigger] changes[i]),
    decreases lanes.len(),
{
    if lanes.len() > 0 {
        let rest = lanes.drop_last();
        let lane = lanes.last();
        let before = review::reviewed_lanes(fs, rest)->Ok_0;
        let found = review::lane_changes(fs, lane)->Ok_0;
        let more = review::reviewed_changes(fs, lane, found)->Ok_0;
        law_review_previews_the_listed_ops(fs, before, rest);
        lemma_changes_are_at_paths(fs, lane, repo::overlay_listing(fs.repo, lane), found);
        lemma_lane_shows_its_ops(fs, lane, found, more);
        assert forall|i: int| 0 <= i < changes.len() implies shows_its_ops(#[trigger] changes[i]) by {
            if i < before.len() {
                assert(changes[i] == before[i]);
            } else {
                assert(changes[i] == more[i - before.len()]);
            }
        }
    }
}

proof fn lemma_picked_state(change: ReviewedChangeView, clean: bool, n: int)
    requires
        shows_its_ops(change),
        n <= change.ops.len(),
    ensures
        forall|i: int|
            0 <= i < collect::picked_upto(change, clean, n).len() ==> ((
            #[trigger] collect::picked_upto(change, clean, n)[i]).op.conflicts_with.len() == 0)
                == clean,
    decreases n,
{
    if n > 0 {
        lemma_picked_state(change, clean, n - 1);
        assert(change.ops[n - 1].op == change.change.ops[n - 1]);
    }
}

proof fn lemma_scoped_state(changes: Seq<ReviewedChangeView>, scope: ScopeView, clean: bool)
    requires
        forall|i: int| 0 <= i < changes.len() ==> shows_its_ops(#[trigger] changes[i]),
    ensures
        forall|i: int|
            0 <= i < collect::scoped_ops(changes, scope, clean).len() ==> ((
            #[trigger] collect::scoped_ops(changes, scope, clean)[i]).op.conflicts_with.len() == 0)
                == clean,
    decreases changes.len(),
{
    if changes.len() > 0 {
        let rest = changes.drop_last();
        assert(forall|i: int| 0 <= i < rest.len() ==> rest[i] == changes[i]);
        lemma_scoped_state(rest, scope, clean);
        assert(shows_its_ops(changes[changes.len() - 1]));
        lemma_picked_state(changes.last(), clean, changes.last().ops.len() as int);
    }
}

proof fn lemma_members_stand_in(ops: Seq<ReviewOpView>, i: int, n: int)
    requires
        n <= ops.len(),
    ensures
        forall|m: int|
            0 <= m < groups::members_upto(ops, i, n).len() ==> ops.contains(
                #[trigger] groups::members_upto(ops, i, n)[m],
            ),
    decreases n,
{
    if n > 0 {
        lemma_members_stand_in(ops, i, n - 1);
        let before = groups::members_upto(ops, i, n - 1);
        let all = groups::members_upto(ops, i, n);
        assert forall|m: int| 0 <= m < all.len() implies ops.contains(#[trigger] all[m]) by {
            if m < before.len() {
                assert(all[m] == before[m]);
            } else {
                assert(all[m] == ops[n - 1]);
            }
        }
    }
}

proof fn lemma_groups_stand_in(ops: Seq<ReviewOpView>, n: int)
    requires
        n <= ops.len(),
    ensures
        forall|g: int, m: int|
            0 <= g < groups::groups_upto(ops, n).len() && 0 <= m < groups::groups_upto(
                ops,
                n,
            )[g].ops.len() ==> ops.contains(#[trigger] groups::groups_upto(ops, n)[g].ops[m]),
    decreases n,
{
    if n > 0 {
        lemma_groups_stand_in(ops, n - 1);
        let members = groups::members_upto(ops, n - 1, ops.len() as int);
        let group = groups::group_of(ops, n - 1);
        lemma_members_stand_in(ops, n - 1, ops.len() as int);
        sorting::lemma_ordered_contains::<ReviewOpOutput>(members);
        assert forall|m: int| 0 <= m < group.len() implies ops.contains(#[trigger] group[m]) by {
            assert(group.contains(group[m]));
            let k = choose|k: int| 0 <= k < members.len() && members[k] == group[m];
            assert(ops.contains(members[k]));
        }
        let found = groups::groups_upto(ops, n);
        assert forall|g: int, m: int|
            0 <= g < found.len() && 0 <= m < found[g].ops.len() implies ops.contains(
            #[trigger] found[g].ops[m],
        ) by {
            if g < groups::groups_upto(ops, n - 1).len() {
                assert(found[g] == groups::groups_upto(ops, n - 1)[g]);
            } else {
                assert(found[g].ops == group);
            }
        }
    }
}

/// In a review of a repo whose operations are as lanes write them, the clean operations of a path
/// are those that conflict with no lane, and the operations in its groups are those that do.
pub proof fn law_clean_ops_conflict_with_no_lane(
    fs: Fs,
    changes: Seq<ReviewedChangeView>,
    lanes: Seq<Seq<char>>,
    path: Seq<char>,
)
    requires
        upkeep::repo_tidy(fs.repo),
        review::reviewed_lanes(fs, lanes) == Ok::<Seq<ReviewedChangeView>, LaneFsErrorView>(changes),
    ensures
        ({
            let at = collect::path_review(changes, path);
            &&& forall|i: int|
                0 <= i < at.clean_ops.len() ==> (
                #[trigger] at.clean_ops[i]).op.conflicts_with.len() == 0
            &&& forall|g: int, i: int|
                0 <= g < at.conflicts.len() && 0 <= i < at.conflicts[g].ops.len() ==> (
                #[trigger] at.conflicts[g].ops[i]).op.conflicts_with.len() > 0
        }),
{
    law_review_previews_the_listed_ops(fs, changes, lanes);
    let at = collect::path_review(changes, path);
    let clean = collect::scoped_ops(changes, ScopeView::Path(path), true);
    let conflicted = collect::scoped_ops(changes, ScopeView::Path(path), false);
    lemma_scoped_state(changes, ScopeView::Path(path), true);
    lemma_scoped_state(changes, ScopeView::Path(path), false);
    sorting::lemma_ordered_contains::<ReviewOpOutput>(clean);
    assert forall|i: int| 0 <= i < at.clean_ops.len() implies (
    #[trigger] at.clean_ops[i]).op.conflicts_with.len() == 0 by {
        assert(at.clean_ops.contains(at.clean_ops[i]));
        let k = choose|k: int| 0 <= k < clean.len() && clean[k] == at.clean_ops[i];
        assert(clean[k].op.conflicts_with.len() == 0);
    }
    let found = groups::groups_upto(conflicted, conflicted.len() as int);
    lemma_groups_stand_in(conflicted, conflicted.len() as int);
    sorting::lemma_ordered_contains::<ReviewConflictOutput>(found);
    assert forall|g: int, i: int|
        0 <= g < at.conflicts.len() && 0 <= i < at.conflicts[g].ops.len() implies (
    #[trigger] at.conflicts[g].ops[i]).op.conflicts_with.len() > 0 by {
        assert(at.conflicts.contains(at.conflicts[g]));
        let h = choose|h: int| 0 <= h < found.len() && found[h] == at.conflicts[g];
        assert(conflicted.contains(found[h].ops[i]));
        let k = choose|k: int| 0 <= k < conflicted.len() && conflicted[k] == found[h].ops[i];
        assert((conflicted[k].op.conflicts_with.len() == 0) == false);
    }
}

} // verus!
