//! What holds of lanes when operations of one of them become part of the base.
use vstd::prelude::*;

use crate::conflict;
use crate::conflict_laws;
use crate::lane_file;
use crate::lane_file::{Entry, File};
use crate::op_id;
use crate::op_id::ParsedOpId;
use crate::ops;
use crate::ops::Op;
use crate::promotion;
use crate::promotion::PromotionView;
use crate::rebase;
use crate::replacement_laws;
use crate::repo;
use crate::repo::Repo;
use crate::repo_laws;
use crate::text;
use crate::text_map;
use crate::types::{LaneErrorView, OpDetailView, OpSummaryView};
use crate::upkeep;
use crate::whole_lane;
use crate::write_laws;

verus! {

/// A selection of a numbered list by the names of its operations.
proof fn lemma_named(lane: Seq<char>, list: Seq<Op>, names: Seq<Seq<char>>, i: int)
    requires
        lane_file::numbered(list),
        0 <= i < list.len(),
        op_id::first_unknown(lane, list, names) is None,
        forall|n: int|
            0 <= n < names.len() ==> exists|m: int|
                0 <= m < list.len() && #[trigger] names[n] == op_id::op_name(
                    lane,
                    (#[trigger] list[m]).id,
                ),
    ensures
        op_id::is_selected(lane, names, list[i].id) == names.contains(
            op_id::op_name(lane, list[i].id),
        ),
{
    repo_laws::lemma_named_op(lane, list, i);
    let name = op_id::op_name(lane, list[i].id);
    if names.contains(name) {
        let n = choose|n: int| 0 <= n < names.len() && names[n] == name;
        assert(op_id::parsed_op_id(lane, names[n]) == Some(ParsedOpId::Present(list[i].id as u64)));
    }
    if op_id::is_selected(lane, names, list[i].id) {
        let n = choose|n: int|
            0 <= n < names.len() && op_id::parsed_op_id(lane, #[trigger] names[n]) == Some(
                ParsedOpId::Present(list[i].id as u64),
            );
        let m = choose|m: int|
            0 <= m < list.len() && names[n] == op_id::op_name(lane, (#[trigger] list[m]).id);
        repo_laws::lemma_named_op(lane, list, m);
        if m < i {
            assert(list[m].id != list[i].id);
        }
        if i < m {
            assert(list[i].id != list[m].id);
        }
        assert(names[n] == name);
    }
}

/// Each of some names is that of a listed operation of a lane.
pub open spec fn names_listed(
    state: Repo,
    path: Seq<char>,
    lane: Seq<char>,
    base: Option<Seq<u8>>,
    names: Seq<Seq<char>>,
) -> bool {
    &&& repo::repo_change_ops(state, path, lane, base) is Ok
    &&& forall|n: int|
        0 <= n < names.len() ==> repo_laws::all_names(state, path, lane, base).contains(
            #[trigger] names[n],
        )
}

/// The details of the listed operations that have one of some names.
pub open spec fn named_details(
    state: Repo,
    path: Seq<char>,
    lane: Seq<char>,
    base: Option<Seq<u8>>,
    names: Seq<Seq<char>>,
) -> Seq<OpDetailView> {
    repo::repo_change_ops(state, path, lane, base)->Ok_0.filter(
        |listed: OpSummaryView| names.contains(listed.op_id),
    ).map_values(
        |listed: OpSummaryView| repo::repo_op_detail(state, path, lane, base, listed.op_id)->Ok_0,
    )
}

/// What is known of a promotion by names of listed operations of a lane that shows the file.
proof fn lemma_selection(
    state: Repo,
    bases: Map<Seq<char>, Option<Seq<u8>>>,
    path: Seq<char>,
    lane: Seq<char>,
    base: Option<Seq<u8>>,
    names: Seq<Seq<char>>,
    list: Seq<Op>,
)
    requires
        upkeep::sound_repo(state, bases),
        state.files.contains_key(path) && bases[path] == base,
        state.files[path].lanes.contains_key(lane),
        state.files[path].lanes[lane] == Entry::Present(list),
        lane_file::base_bytes(base).len() <= usize::MAX,
        names.len() > 0,
        names_listed(state, path, lane, base, names),
    ensures
        op_id::first_unknown(lane, list, names) is None,
        forall|i: int|
            0 <= i < list.len() ==> #[trigger] op_id::is_selected(lane, names, list[i].id)
                == names.contains(op_id::op_name(lane, list[i].id)),
        ({
            let selected = op_id::selected_ops(lane, list, names);
            &&& rebase::tidy(selected)
            &&& conflict::all_within(selected, lane_file::base_bytes(base).len() as int)
            &&& repo::repo_promote_ops(state, path, lane, base, names) is Ok
            &&& repo::repo_promote_ops(state, path, lane, base, names)->Ok_0.0 == Some(
                ops::render_from(lane_file::base_bytes(base), 0, selected),
            )
        }),
{
    let bytes = lane_file::base_bytes(base);
    let all = repo_laws::all_names(state, path, lane, base);
    repo_laws::lemma_sound_list(state, bases, path, lane, list);
    repo_laws::lemma_nothing_in_the_way(state, bases, path);
    assert(state.files[path].lanes.contains_key(lane));
    assert(state.lanes.contains(lane));
    assert forall|n: int| 0 <= n < names.len() implies op_id::names_present(
        lane,
        list,
        #[trigger] names[n],
    ) && exists|m: int|
        0 <= m < list.len() && names[n] == op_id::op_name(lane, (#[trigger] list[m]).id) by {
        assert(all.contains(names[n]));
        let m = choose|m: int| 0 <= m < all.len() && all[m] == names[n];
        repo_laws::lemma_named_op(lane, list, m);
        assert(names[n] == op_id::op_name(lane, list[m].id));
    }
    repo_laws::lemma_none_unknown(lane, list, names);
    assert forall|i: int| 0 <= i < list.len() implies #[trigger] op_id::is_selected(
        lane,
        names,
        list[i].id,
    ) == names.contains(op_id::op_name(lane, list[i].id)) by {
        lemma_named(lane, list, names, i);
    }
    let keep = |op: Op| op_id::is_selected(lane, names, op.id);
    rebase::lemma_filter_tidy(list, keep, bytes.len() as int);
    let selected = op_id::selected_ops(lane, list, names);
    assert(selected == list.filter(keep));
    ops::lemma_sort_ops_of_sorted(selected);
    conflict::lemma_rendered_ok(path, bytes, selected);
}

/// Promoting named operations makes the base with exactly those applied the new base: each of
/// their ranges is replaced by what they insert, and every other byte stays.
pub proof fn law_promotion_applies_the_named_operations(
    state: Repo,
    bases: Map<Seq<char>, Option<Seq<u8>>>,
    path: Seq<char>,
    lane: Seq<char>,
    base: Option<Seq<u8>>,
    names: Seq<Seq<char>>,
)
    requires
        upkeep::sound_repo(state, bases),
        state.files.contains_key(path) ==> bases[path] == base,
        lane_file::base_bytes(base).len() <= usize::MAX,
        names.len() > 0,
        names_listed(state, path, lane, base, names),
        repo::repo_read(state, path, lane, base) != Ok::<Option<Seq<u8>>, LaneErrorView>(None),
    ensures
        repo::repo_promote_ops(state, path, lane, base, names) is Ok,
        repo::repo_promote_ops(state, path, lane, base, names)->Ok_0.0 == Some(
            repo_laws::assembled(
                lane_file::base_bytes(base),
                0,
                named_details(state, path, lane, base, names),
            ),
        ),
{
    repo::lemma_base_is_no_lane(state, lane);
    assert(repo_laws::all_names(state, path, lane, base).contains(names[0]));
    let file = state.files[path];
    assert(file.lanes.contains_key(lane));
    let list = file.lanes[lane]->Present_0;
    let bytes = lane_file::base_bytes(base);
    lemma_selection(state, bases, path, lane, base, names, list);
    repo_laws::lemma_sound_list(state, bases, path, lane, list);
    let listed = repo::repo_change_ops(state, path, lane, base)->Ok_0;
    let keep = |op: Op| op_id::is_selected(lane, names, op.id);
    let wanted = |op: OpSummaryView| names.contains(op.op_id);
    assert forall|i: int| 0 <= i < list.len() implies (#[trigger] listed[i])
        == lane_file::op_summary(file, path, lane, list[i], base) && wanted(listed[i]) == keep(
        list[i],
    ) by {
        assert(op_id::is_selected(lane, names, list[i].id) == names.contains(
            op_id::op_name(lane, list[i].id),
        ));
    }
    replacement_laws::lemma_filter_listed(list, listed, keep, wanted, file, path, lane, base);
    let selected = op_id::selected_ops(lane, list, names);
    let chosen = listed.filter(wanted);
    let details = named_details(state, path, lane, base, names);
    assert(chosen == listed.filter(|listed: OpSummaryView| names.contains(listed.op_id)));
    assert(details.len() == chosen.len());
    rebase::lemma_filter_elements(list, keep);
    assert forall|i: int| 0 <= i < selected.len() implies (#[trigger] details[i]).summary.base_start
        == selected[i].start && details[i].summary.base_end == selected[i].end()
        && details[i].inserted == selected[i].inserted by {
        assert(chosen[i] == lane_file::op_summary(file, path, lane, selected[i], base));
        assert(list.contains(selected[i]));
        let m = choose|m: int| 0 <= m < list.len() && list[m] == selected[i];
        repo_laws::lemma_named_op(lane, list, m);
        assert(list[m].end() <= bytes.len());
        assert(details[i] == repo::repo_op_detail(state, path, lane, base, chosen[i].op_id)->Ok_0);
    }
    repo_laws::lemma_assembled(bytes, 0, details, selected);
}

/// The lane `k` after a promotion in another lane.
proof fn lemma_other_lane_after(
    state: Repo,
    path: Seq<char>,
    lane: Seq<char>,
    base: Option<Seq<u8>>,
    names: Seq<Seq<char>>,
    k: Seq<char>,
    what: PromotionView,
)
    requires
        repo::repo_ok(state),
        state.files.contains_key(path),
        k != lane,
        state.lanes.contains(k),
        state.files[path].lanes.contains_key(k),
        repo::repo_promote_ops(state, path, lane, base, names) is Ok,
        ({
            let (promoted, after) = repo::repo_promote_ops(state, path, lane, base, names)->Ok_0;
            let seen = promotion::shown(path, base, state.files[path].lanes[k]);
            &&& write_laws::can_be_told(promoted, seen)
            &&& promotion::next_entry(
                what,
                path,
                base,
                promoted,
                lane,
                k,
                state.files[path].lanes[k],
            ) == lane_file::entry_for(promoted, seen)
            &&& after.files == repo::with_file(
                state.files,
                path,
                File {
                    base: lane_file::base_state(promoted),
                    lanes: promotion::promoted_lanes(
                        what,
                        state.files[path].lanes,
                        path,
                        lane,
                        base,
                        promoted,
                    ),
                },
            )
            &&& after.lanes == state.lanes
        }),
    ensures
        ({
            let (promoted, after) = repo::repo_promote_ops(state, path, lane, base, names)->Ok_0;
            repo::repo_read(after, path, k, promoted) == Ok::<Option<Seq<u8>>, LaneErrorView>(
                promotion::shown(path, base, state.files[path].lanes[k]),
            )
        }),
{
    repo::lemma_base_is_no_lane(state, k);
    let (promoted, after) = repo::repo_promote_ops(state, path, lane, base, names)->Ok_0;
    let seen = promotion::shown(path, base, state.files[path].lanes[k]);
    write_laws::lemma_told_faithfully(promoted, seen);
    let entry = lane_file::entry_for(promoted, seen);
    assert(lane_file::seen(path, promoted, entry) == Ok::<Option<Seq<u8>>, LaneErrorView>(seen));
    let lanes = promotion::promoted_lanes(
        what,
        state.files[path].lanes,
        path,
        lane,
        base,
        promoted,
    );
    assert(lanes.contains_key(k) == (entry is Some));
    if lanes == Map::<Seq<char>, Entry>::empty() {
        assert(!lanes.contains_key(k));
    }
}

/// Another lane keeps its view when operations are promoted that take some of the ground of its
/// own, or where there is no base file, or where it has deleted the file.
pub proof fn law_conflicting_lane_keeps_its_view(
    state: Repo,
    bases: Map<Seq<char>, Option<Seq<u8>>>,
    path: Seq<char>,
    lane: Seq<char>,
    base: Option<Seq<u8>>,
    names: Seq<Seq<char>>,
    k: Seq<char>,
    i: int,
    j: int,
)
    requires
        upkeep::sound_repo(state, bases),
        state.files.contains_key(path) ==> bases[path] == base,
        lane_file::base_bytes(base).len() <= usize::MAX,
        names.len() > 0,
        names_listed(state, path, lane, base, names),
        k != lane,
        repo::repo_read(state, path, lane, base) != Ok::<Option<Seq<u8>>, LaneErrorView>(None),
        repo::repo_change_ops(state, path, k, base) is Ok,
        0 <= i < conflict_laws::listed_ops(state, path, lane, base).len(),
        0 <= j < conflict_laws::listed_ops(state, path, k, base).len(),
        names.contains(conflict_laws::listed_ops(state, path, lane, base)[i].op_id),
        base is None || conflict_laws::deletes(state, path, k, base) || ({
            let mine = conflict_laws::listed_ops(state, path, lane, base)[i];
            let theirs = conflict_laws::listed_ops(state, path, k, base)[j];
            mine.base_start < theirs.base_end && theirs.base_start < mine.base_end
        }),
        write_laws::can_be_told(
            repo::repo_promote_ops(state, path, lane, base, names)->Ok_0.0,
            repo::repo_read(state, path, k, base)->Ok_0,
        ),
    ensures
        ({
            let (promoted, after) = repo::repo_promote_ops(state, path, lane, base, names)->Ok_0;
            repo::repo_read(after, path, k, promoted) == repo::repo_read(state, path, k, base)
        }),
{
    repo::lemma_base_is_no_lane(state, lane);
    repo::lemma_base_is_no_lane(state, k);
    let file = state.files[path];
    assert(file.lanes.contains_key(lane));
    assert(file.lanes.contains_key(k));
    let list = file.lanes[lane]->Present_0;
    lemma_selection(state, bases, path, lane, base, names, list);
    let selected = op_id::selected_ops(lane, list, names);
    let ids = promotion::selected_set(lane, names);
    let what = PromotionView::Ops { list: selected, ids };
    let (promoted, after) = repo::repo_promote_ops(state, path, lane, base, names)->Ok_0;
    assert(lane_file::entry_bytes(path, base, file.lanes[k]) is Ok);
    let seen = promotion::shown(path, base, file.lanes[k]);
    assert(repo::repo_read(state, path, k, base) == Ok::<Option<Seq<u8>>, LaneErrorView>(seen));
    if let Entry::Present(others) = file.lanes[k] {
        if base is Some {
            let keep = |op: Op| op_id::is_selected(lane, names, op.id);
            assert(keep(list[i]));
            list.lemma_filter_contains(keep, i);
            assert(selected.contains(list[i]));
            let m = choose|m: int| 0 <= m < selected.len() && selected[m] == list[i];
            assert(conflict::conflicting(selected[m], others[j], false));
            assert(conflict::lists_conflict(selected, others, false));
        }
        assert(promotion::cannot_move(base, promoted, selected, others));
    }
    lemma_other_lane_after(state, path, lane, base, names, k, what);
}

/// When the deletion of a file is promoted, every other lane that shows something else than the base
/// there keeps its view.
pub proof fn law_promoted_deletion_keeps_other_views(
    state: Repo,
    bases: Map<Seq<char>, Option<Seq<u8>>>,
    path: Seq<char>,
    lane: Seq<char>,
    base: Option<Seq<u8>>,
    k: Seq<char>,
)
    requires
        upkeep::sound_repo(state, bases),
        state.files.contains_key(path) ==> bases[path] == base,
        k != lane,
        conflict_laws::deletes(state, path, lane, base),
        repo::repo_change_ops(state, path, k, base) is Ok,
        conflict_laws::listed_ops(state, path, k, base).len() > 0,
        write_laws::can_be_told(None, repo::repo_read(state, path, k, base)->Ok_0),
        lane != "base"@,
    ensures
        ({
            let names = repo_laws::all_names(state, path, lane, base);
            let outcome = repo::repo_promote_ops(state, path, lane, base, names);
            &&& outcome is Ok
            &&& outcome->Ok_0.0 is None
            &&& repo::repo_read(outcome->Ok_0.1, path, k, None) == repo::repo_read(
                state,
                path,
                k,
                base,
            )
        }),
{
    repo::lemma_base_is_no_lane(state, k);
    let file = state.files[path];
    assert(file.lanes.contains_key(lane) && file.lanes[lane] is Deleted);
    assert(file.lanes.contains_key(k));
    let names = repo_laws::all_names(state, path, lane, base);
    assert(names =~= seq![op_id::delete_name(lane)]);
    repo_laws::lemma_all_deleted(state, bases, path, lane);
    assert(lane_file::entry_bytes(path, base, file.lanes[k]) is Ok);
    lemma_other_lane_after(state, path, lane, base, names, k, PromotionView::Content);
}

/// What accepting all of a lane at some paths gives at each of them.
proof fn lemma_views_become_the_base(
    state: Repo,
    bases: Map<Seq<char>, Option<Seq<u8>>>,
    lane: Seq<char>,
    given: Seq<(Seq<char>, Option<Seq<u8>>)>,
    paths: Seq<Seq<char>>,
)
    requires
        upkeep::sound_repo(state, bases),
        whole_lane::rightly_given(state, lane, bases, given),
        forall|p: Seq<char>| lane_file::base_bytes(#[trigger] bases[p]).len() <= usize::MAX,
        forall|i: int| 0 <= i < paths.len() ==> repo::overlaid(state, lane).contains(
            #[trigger] paths[i],
        ),
        paths.no_duplicates(),
        whole_lane::paths_promoted(state, lane, given, paths) is Ok,
    ensures
        ({
            let (files, after) = whole_lane::paths_promoted(state, lane, given, paths)->Ok_0;
            &&& files.len() == paths.len()
            &&& after.lanes == state.lanes
            &&& forall|i: int|
                0 <= i < paths.len() ==> (#[trigger] files[i]).0 == paths[i]
                    && becomes_the_base(state, bases, lane, paths[i], files[i].1)
            &&& forall|p: Seq<char>|
                !paths.contains(p) ==> #[trigger] after.files.contains_key(p)
                    == state.files.contains_key(p)
            &&& forall|p: Seq<char>|
                !paths.contains(p) ==> #[trigger] after.files[p] == state.files[p]
        }),
    decreases paths.len(),
{
    if paths.len() > 0 {
        let rest = paths.drop_last();
        let path = paths.last();
        assert(rest.no_duplicates());
        assert forall|i: int| 0 <= i < rest.len() implies repo::overlaid(state, lane).contains(
            #[trigger] rest[i],
        ) by {
            assert(rest[i] == paths[i]);
        }
        lemma_views_become_the_base(state, bases, lane, given, rest);
        let (files, before) = whole_lane::paths_promoted(state, lane, given, rest)->Ok_0;
        let (all, after) = whole_lane::paths_promoted(state, lane, given, paths)->Ok_0;
        assert(paths[paths.len() - 1] == path);
        assert(!rest.contains(path)) by {
            if rest.contains(path) {
                let i = choose|i: int| 0 <= i < rest.len() && rest[i] == path;
                assert(paths[i] == paths[paths.len() - 1]);
            }
        }
        assert(repo::overlaid(state, lane).contains(path));
        assert(whole_lane::base_for(given, path) == Some(bases[path]));
        assert(before.files.contains_key(path) == state.files.contains_key(path));
        assert(before.files[path] == state.files[path]);
        let listed = repo::repo_change_ops(state, path, lane, bases[path]);
        assert(repo::repo_change_ops(before, path, lane, bases[path]) == listed);
        assert(lane_file::base_bytes(bases[path]).len() <= usize::MAX);
        if listed->Ok_0.len() > 0 {
            let names = repo_laws::all_names(state, path, lane, bases[path]);
            assert(names == whole_lane::op_names(listed->Ok_0));
            repo_laws::law_promoting_all_makes_the_view_the_base(
                state,
                bases,
                path,
                lane,
                bases[path],
            );
            assert(repo::repo_promote_ops(before, path, lane, bases[path], names)->Ok_0.0
                == repo::repo_promote_ops(state, path, lane, bases[path], names)->Ok_0.0);
        }
        assert forall|i: int| 0 <= i < paths.len() implies (#[trigger] all[i]).0 == paths[i]
            && becomes_the_base(state, bases, lane, paths[i], all[i].1) by {
            if i < rest.len() {
                assert(all[i] == files[i]);
                assert(rest[i] == paths[i]);
            }
        }
        assert forall|p: Seq<char>| !paths.contains(p) implies #[trigger] after.files.contains_key(p)
            == state.files.contains_key(p) && after.files[p] == state.files[p] by {
            assert(p != path);
            if rest.contains(p) {
                let i = choose|i: int| 0 <= i < rest.len() && rest[i] == p;
                assert(paths[i] == p);
            }
            assert(before.files.contains_key(p) == state.files.contains_key(p));
            assert(before.files[p] == state.files[p]);
        }
        assert forall|p: Seq<char>| !paths.contains(p) implies #[trigger] after.files[p]
            == state.files[p] by {
            assert(after.files.contains_key(p) == state.files.contains_key(p));
        }
    }
}

/// What becomes the base at a path when all of a lane is accepted: what the lane read there, or,
/// where it has no operations, the base as it was.
pub open spec fn becomes_the_base(
    state: Repo,
    bases: Map<Seq<char>, Option<Seq<u8>>>,
    lane: Seq<char>,
    path: Seq<char>,
    bytes: Option<Seq<u8>>,
) -> bool {
    if conflict_laws::listed_ops(state, path, lane, bases[path]).len() > 0 {
        repo::repo_read(state, path, lane, bases[path]) == Ok::<Option<Seq<u8>>, LaneErrorView>(
            bytes,
        )
    } else {
        bytes == bases[path]
    }
}

/// Accepting all of a lane makes what the lane read the base, at every path at which it has
/// operations, and leaves all other paths alone.
pub proof fn law_accepting_a_lane_makes_its_views_the_base(
    state: Repo,
    bases: Map<Seq<char>, Option<Seq<u8>>>,
    lane: Seq<char>,
    given: Seq<(Seq<char>, Option<Seq<u8>>)>,
)
    requires
        upkeep::sound_repo(state, bases),
        whole_lane::rightly_given(state, lane, bases, given),
        forall|p: Seq<char>| lane_file::base_bytes(#[trigger] bases[p]).len() <= usize::MAX,
        whole_lane::lane_promoted(state, lane, given) is Ok,
    ensures
        ({
            let (files, after) = whole_lane::lane_promoted(state, lane, given)->Ok_0;
            &&& forall|i: int|
                0 <= i < files.len() ==> repo::overlaid(state, lane).contains(
                    (#[trigger] files[i]).0,
                ) && becomes_the_base(state, bases, lane, files[i].0, files[i].1)
            &&& forall|p: Seq<char>| #[trigger]
                repo::overlaid(state, lane).contains(p) ==> exists|i: int|
                    0 <= i < files.len() && (#[trigger] files[i]).0 == p
            &&& forall|p: Seq<char>|
                !repo::overlaid(state, lane).contains(p) ==> #[trigger] after.files[p]
                    == state.files[p]
        }),
{
    let paths = repo::overlay_listing(state, lane);
    let overlaid = repo::overlaid(state, lane);
    assert(overlaid.subset_of(state.files.dom()));
    vstd::set_lib::lemma_len_subset(overlaid, state.files.dom());
    text_map::lemma_listing_exists(overlaid);
    let (files, after) = whole_lane::lane_promoted(state, lane, given)->Ok_0;
    assert forall|i: int| 0 <= i < paths.len() implies repo::overlaid(state, lane).contains(
        #[trigger] paths[i],
    ) by {
        assert(paths.contains(paths[i]));
    }
    assert(paths.no_duplicates()) by {
        assert forall|i: int, j: int| 0 <= i < j < paths.len() implies paths[i] != paths[j] by {
            assert(text::text_lt(paths[i], paths[j]));
            text::lemma_text_lt_irreflexive(paths[i]);
        }
    }
    lemma_views_become_the_base(state, bases, lane, given, paths);
    assert forall|p: Seq<char>| #[trigger] repo::overlaid(state, lane).contains(
        p,
    ) implies exists|i: int| 0 <= i < files.len() && (#[trigger] files[i]).0 == p by {
        assert(paths.contains(p));
        let i = choose|i: int| 0 <= i < paths.len() && paths[i] == p;
        assert(files[i].0 == paths[i]);
    }
    assert forall|p: Seq<char>| !repo::overlaid(state, lane).contains(p) implies #[trigger] after.files[p]
        == state.files[p] by {
        assert(!paths.contains(p));
    }
}

} // verus!
