//! What holds of the lane model as a whole.
use vstd::prelude::*;

use crate::conflict;
use crate::lane_file;
use crate::lane_file::{Entry, File};
use crate::op_id;
use crate::ops;
use crate::ops::Op;
use crate::promotion;
use crate::promotion::PromotionView;
use crate::rebase;
use crate::repo;
use crate::repo::Repo;
use crate::repo_laws;
use crate::text_map;
use crate::types::{DecodeErrorView, LaneErrorView};
use crate::upkeep;

verus! {

/// Storing a repo and loading it gives the repo back.
pub proof fn law_storage_round_trip(state: Repo)
    requires
        repo::repo_ok(state),
    ensures
        repo::loaded_repo(state) == Ok::<Repo, DecodeErrorView>(state),
{
    assert(!text_map::holds_of_some(repo::bad_lane(state)));
    assert forall|p: Seq<char>| state.files.contains_key(p) implies repo::stored_file_fault(
        #[trigger] state.files[p],
    ) is None && repo::loaded_file(state.files[p]) == state.files[p] by {
        let file = state.files[p];
        assert(lane_file::file_ok(file));
        assert forall|k: Seq<char>| #[trigger] file.lanes.contains_key(k) implies lane_file::loaded_entry(
            file.lanes[k],
        ) == Ok::<Entry, DecodeErrorView>(file.lanes[k]) by {
            lane_file::lemma_entry_round_trip(file.lanes[k]);
        }
        if text_map::holds_of_some(repo::bad_entry(file)) {
            let k = choose|k: Seq<char>| #[trigger] repo::bad_entry(file)(k);
            assert(file.lanes.contains_key(k));
        }
        assert(repo::loaded_file(file).lanes =~= file.lanes);
    }
    if text_map::holds_of_some(repo::bad_file(state)) {
        let p = choose|p: Seq<char>| #[trigger] repo::bad_file(state)(p);
        assert(repo::stored_file_fault(state.files[p]) is None);
    }
    if text_map::holds_of_some(repo::stray_run(state)) {
        let k = choose|k: Seq<char>| #[trigger] repo::stray_run(state)(k);
        assert(state.runs.contains_key(k));
    }
    if text_map::holds_of_some(repo::stray_file(state)) {
        let p = choose|p: Seq<char>| #[trigger] repo::stray_file(state)(p);
        let k = choose|k: Seq<char>| #[trigger] repo::stray_overlay(state, state.files[p])(k);
        assert(state.files[p].lanes.contains_key(k));
    }
    let files = state.files.map_values(|file: File| repo::loaded_file(file));
    assert(files =~= state.files);
}

/// The base is what is on disk, whatever the lanes hold.
pub proof fn law_base_is_untouched(state: Repo, path: Seq<char>, base: Option<Seq<u8>>)
    ensures
        repo::repo_read(state, path, "base"@, base) == Ok::<Option<Seq<u8>>, LaneErrorView>(base),
{
}

/// Writing in one lane changes neither what other lanes see at that path nor what any lane sees
/// at other paths.
pub proof fn law_lanes_are_isolated(
    state: Repo,
    path: Seq<char>,
    lane: Seq<char>,
    base: Option<Seq<u8>>,
    content: Option<Seq<u8>>,
    other_path: Seq<char>,
    other_lane: Seq<char>,
    other_base: Option<Seq<u8>>,
)
    requires
        repo::repo_replace(state, path, lane, base, content) is Ok,
        other_path != path || (other_lane != lane && other_base == base),
    ensures
        repo::repo_read(
            repo::repo_replace(state, path, lane, base, content)->Ok_0,
            other_path,
            other_lane,
            other_base,
        ) == repo::repo_read(state, other_path, other_lane, other_base),
{
    let after = repo::repo_replace(state, path, lane, base, content)->Ok_0;
    if other_path == path {
        let file = repo::file_at(state, path, base);
        let entry = lane_file::entry_for(base, content);
        let changed = promotion::with_entry(file.lanes, lane, entry);
        assert(changed.contains_key(other_lane) == file.lanes.contains_key(other_lane));
        if changed == Map::<Seq<char>, Entry>::empty() {
            assert(!changed.contains_key(other_lane));
        }
    }
}

/// Giving a lane the base content leaves it without an overlay at that path.
pub proof fn law_base_content_clears_overlay(
    state: Repo,
    path: Seq<char>,
    lane: Seq<char>,
    base: Option<Seq<u8>>,
)
    requires
        repo::repo_replace(state, path, lane, base, base) is Ok,
    ensures
        ({
            let after = repo::repo_replace(state, path, lane, base, base)->Ok_0;
            !(after.files.contains_key(path) && after.files[path].lanes.contains_key(lane))
        }),
{
}

/// Overlays are refused once the base file they rest on has another digest.
pub proof fn law_changed_base_is_refused(
    state: Repo,
    path: Seq<char>,
    lane: Seq<char>,
    base: Option<Seq<u8>>,
    content: Option<Seq<u8>>,
)
    requires
        repo::repo_ok(state),
        state.lanes.contains(lane),
        state.files.contains_key(path),
        state.files[path].base != lane_file::base_state(base),
    ensures
        repo::repo_read(state, path, lane, base) == Err::<Option<Seq<u8>>, LaneErrorView>(
            LaneErrorView::BaseChanged(path),
        ),
        repo::repo_replace(state, path, lane, base, content) == Err::<Repo, LaneErrorView>(
            LaneErrorView::BaseChanged(path),
        ),
{
    repo::lemma_base_is_no_lane(state, lane);
}

/// A discarded lane is gone with its run state and all its overlays.
pub proof fn law_discard_removes_lane(state: Repo, lane: Seq<char>, path: Seq<char>)
    ensures
        ({
            let after = repo::repo_discard(state, lane);
            &&& !after.lanes.contains(lane)
            &&& !after.runs.contains_key(lane)
            &&& !(after.files.contains_key(path) && after.files[path].lanes.contains_key(lane))
        }),
{
}

/// Discarding a lane does not change what other lanes see on the bases they rest on.
pub proof fn law_discard_keeps_others(
    state: Repo,
    lane: Seq<char>,
    path: Seq<char>,
    other: Seq<char>,
    base: Option<Seq<u8>>,
)
    requires
        other != lane,
        repo::file_at(state, path, base).base == lane_file::base_state(base),
    ensures
        repo::repo_read(repo::repo_discard(state, lane), path, other, base) == repo::repo_read(
            state,
            path,
            other,
            base,
        ),
        repo::repo_discard(state, lane).lanes.contains(other) == state.lanes.contains(other),
        repo::repo_discard(state, lane).runs.contains_key(other) == state.runs.contains_key(other),
        state.runs.contains_key(other) ==> repo::repo_discard(state, lane).runs[other]
            == state.runs[other],
{
    if state.files.contains_key(path) {
        let file = state.files[path];
        let rest = repo::file_without(file, lane);
        assert(rest.lanes.contains_key(other) == file.lanes.contains_key(other));
        if rest.lanes == Map::<Seq<char>, Entry>::empty() {
            assert(!rest.lanes.contains_key(other));
        }
    }
}

/// Promoting at one path changes nothing at other paths.
pub proof fn law_promotion_is_local(
    state: Repo,
    path: Seq<char>,
    lane: Seq<char>,
    base: Option<Seq<u8>>,
    names: Seq<Seq<char>>,
    other_path: Seq<char>,
    other_lane: Seq<char>,
    other_base: Option<Seq<u8>>,
)
    requires
        repo::repo_promote_ops(state, path, lane, base, names) is Ok,
        other_path != path,
    ensures
        repo::repo_read(
            repo::repo_promote_ops(state, path, lane, base, names)->Ok_0.1,
            other_path,
            other_lane,
            other_base,
        ) == repo::repo_read(state, other_path, other_lane, other_base),
{
}

/// A lane without an overlay at the path follows the promoted base.
pub proof fn law_untouched_lanes_follow(
    state: Repo,
    path: Seq<char>,
    lane: Seq<char>,
    base: Option<Seq<u8>>,
    names: Seq<Seq<char>>,
    other: Seq<char>,
)
    requires
        repo::repo_ok(state),
        repo::repo_promote_ops(state, path, lane, base, names) is Ok,
        state.lanes.contains(other),
        !state.files[path].lanes.contains_key(other),
    ensures
        ({
            let (promoted, after) = repo::repo_promote_ops(state, path, lane, base, names)->Ok_0;
            repo::repo_read(after, path, other, promoted) == Ok::<Option<Seq<u8>>, LaneErrorView>(
                promoted,
            )
        }),
{
    repo::lemma_base_is_no_lane(state, other);
}

/// A lane whose operations are all promoted sees the promoted base.
pub proof fn law_promoted_lane_follows(
    state: Repo,
    path: Seq<char>,
    lane: Seq<char>,
    base: Option<Seq<u8>>,
    names: Seq<Seq<char>>,
    list: Seq<Op>,
)
    requires
        repo::repo_ok(state),
        repo::repo_promote_ops(state, path, lane, base, names) is Ok,
        state.files[path].lanes[lane] == Entry::Present(list),
        forall|i: int|
            0 <= i < list.len() ==> op_id::is_selected(lane, names, (#[trigger] list[i]).id),
    ensures
        ({
            let (promoted, after) = repo::repo_promote_ops(state, path, lane, base, names)->Ok_0;
            &&& repo::repo_read(after, path, lane, promoted) == Ok::<
                Option<Seq<u8>>,
                LaneErrorView,
            >(promoted)
            &&& !(after.files.contains_key(path) && after.files[path].lanes.contains_key(lane))
        }),
{
    repo::lemma_base_is_no_lane(state, lane);
    let ids = promotion::selected_set(lane, names);
    let keep = |op: Op| !ids.contains(op.id as u64);
    assert(promotion::kept_ops(list, ids).len() == 0) by {
        rebase::lemma_filter_elements(list, keep);
        let kept = list.filter(keep);
        if kept.len() > 0 {
            assert(keep(kept[0]) && list.contains(kept[0]));
            let i = choose|i: int| 0 <= i < list.len() && list[i] == kept[0];
            assert(op_id::is_selected(lane, names, list[i].id));
            lemma_selected_number(lane, names, list[i].id);
        }
    }
}

/// Selecting by number and by name agree.
proof fn lemma_selected_number(lane: Seq<char>, names: Seq<Seq<char>>, id: int)
    ensures
        promotion::selected_set(lane, names).contains(id as u64) == op_id::is_selected(
            lane,
            names,
            id,
        ),
{
    let set = promotion::selected_set(lane, names);
    let n = id as u64;
    assert(set.contains(n) == op_id::is_selected(lane, names, n as int));
    assert((n as int) as u64 == n);
}

/// The entry that a lane has at the path after a promotion.
proof fn lemma_lane_after(
    state: Repo,
    path: Seq<char>,
    lane: Seq<char>,
    base: Seq<u8>,
    names: Seq<Seq<char>>,
    list: Seq<Op>,
    k: Seq<char>,
)
    requires
        repo::repo_ok(state),
        repo::repo_promote_ops(state, path, lane, Some(base), names) is Ok,
        state.files[path].lanes[lane] == Entry::Present(list),
        state.files[path].lanes.contains_key(k),
    ensures
        ({
            let (promoted, after) = repo::repo_promote_ops(
                state,
                path,
                lane,
                Some(base),
                names,
            )->Ok_0;
            let what = PromotionView::Ops {
                list: op_id::selected_ops(lane, list, names),
                ids: promotion::selected_set(lane, names),
            };
            &&& ops::rendered(path, base, op_id::selected_ops(lane, list, names)) == Ok::<
                Seq<u8>,
                LaneErrorView,
            >(lane_file::base_bytes(promoted))
            &&& promoted is Some
            &&& repo::repo_read(after, path, k, promoted) == lane_file::seen(
                path,
                promoted,
                promotion::next_entry(
                    what,
                    path,
                    Some(base),
                    promoted,
                    lane,
                    k,
                    state.files[path].lanes[k],
                ),
            )
        }),
{
    let (promoted, after) = repo::repo_promote_ops(state, path, lane, Some(base), names)->Ok_0;
    let file = state.files[path];
    assert(state.files.contains_key(path));
    assert(state.files[path].lanes.contains_key(k));
    assert(state.lanes.contains(k));
    repo::lemma_base_is_no_lane(state, k);
    let what = PromotionView::Ops {
        list: op_id::selected_ops(lane, list, names),
        ids: promotion::selected_set(lane, names),
    };
    let lanes = promotion::promoted_lanes(what, file.lanes, path, lane, Some(base), promoted);
    let next = promotion::next_entry(what, path, Some(base), promoted, lane, k, file.lanes[k]);
    assert(lanes.contains_key(k) == (next is Some));
    if lanes == Map::<Seq<char>, Entry>::empty() {
        assert(!lanes.contains_key(k));
    }
}

/// The outcome of promoting known operations of a lane in a sound repo.
proof fn lemma_promoted_some(
    state: Repo,
    bases: Map<Seq<char>, Option<Seq<u8>>>,
    path: Seq<char>,
    lane: Seq<char>,
    base: Seq<u8>,
    names: Seq<Seq<char>>,
    list: Seq<Op>,
)
    requires
        upkeep::sound_repo(state, bases),
        state.files.contains_key(path) && bases[path] == Some(base),
        state.files[path].lanes.contains_key(lane),
        state.files[path].lanes[lane] == Entry::Present(list),
        base.len() <= usize::MAX,
        names.len() > 0,
        op_id::first_unknown(lane, list, names) is None,
    ensures
        ({
            let selected = op_id::selected_ops(lane, list, names);
            let outcome = repo::repo_promote_ops(state, path, lane, Some(base), names);
            &&& rebase::tidy(selected)
            &&& conflict::all_within(selected, base.len() as int)
            &&& ops::sort_ops(selected) == selected
            &&& outcome is Ok
            &&& outcome->Ok_0.0 == Some(ops::render_from(base, 0, selected))
        }),
{
    let n = base.len() as int;
    let selected = op_id::selected_ops(lane, list, names);
    let chosen = |op: Op| op_id::is_selected(lane, names, op.id);
    assert(state.files[path].lanes.contains_key(lane));
    assert(state.lanes.contains(lane));
    repo_laws::lemma_sound_list(state, bases, path, lane, list);
    repo_laws::lemma_nothing_in_the_way(state, bases, path);
    assert(selected == list.filter(chosen));
    rebase::lemma_filter_tidy(list, chosen, n);
    ops::lemma_sort_ops_of_sorted(selected);
    conflict::lemma_no_fault(selected, 0, n);
}

/// Promoting some operations of a lane does not change what that lane sees, and leaves it the
/// others: in order, with their names, and with as many bytes replaced and inserted.
pub proof fn law_own_view_is_kept(
    state: Repo,
    bases: Map<Seq<char>, Option<Seq<u8>>>,
    path: Seq<char>,
    lane: Seq<char>,
    base: Seq<u8>,
    names: Seq<Seq<char>>,
    list: Seq<Op>,
)
    requires
        upkeep::sound_repo(state, bases),
        state.files.contains_key(path) && bases[path] == Some(base),
        state.files[path].lanes.contains_key(lane),
        state.files[path].lanes[lane] == Entry::Present(list),
        base.len() <= usize::MAX,
        names.len() > 0,
        op_id::first_unknown(lane, list, names) is None,
        ops::render_from(base, 0, op_id::selected_ops(lane, list, names)).len() <= usize::MAX,
    ensures
        ({
            let outcome = repo::repo_promote_ops(state, path, lane, Some(base), names);
            let (promoted, after) = outcome->Ok_0;
            let listed = repo::repo_change_ops(after, path, lane, promoted);
            &&& outcome is Ok
            &&& repo::repo_read(after, path, lane, promoted) == repo::repo_read(
                state,
                path,
                lane,
                Some(base),
            )
            &&& listed is Ok
            &&& repo_laws::lists_ops(
                lane,
                listed->Ok_0,
                op_id::unselected_ops(lane, list, names),
            )
        }),
{
    assert(state.files[path].lanes.contains_key(lane));
    assert(state.lanes.contains(lane));
    repo::lemma_base_is_no_lane(state, lane);
    repo_laws::lemma_sound_list(state, bases, path, lane, list);
    lemma_promoted_some(state, bases, path, lane, base, names, list);
    let n = base.len() as int;
    let ids = promotion::selected_set(lane, names);
    let chosen = |op: Op| op_id::is_selected(lane, names, op.id);
    let others = |op: Op| !ids.contains(op.id as u64);
    let selected = op_id::selected_ops(lane, list, names);
    let kept = promotion::kept_ops(list, ids);
    assert(selected == list.filter(chosen));
    assert(kept == list.filter(others));
    assert forall|op: Op| #[trigger] others(op) == !chosen(op) by {
        lemma_selected_number(lane, names, op.id);
    }
    assert(kept == op_id::unselected_ops(lane, list, names)) by {
        op_id::lemma_filter_same(
            list,
            others,
            |op: Op| !op_id::is_selected(lane, names, op.id),
        );
    }
    rebase::lemma_split_tidy(list, chosen, others, n);
    rebase::lemma_merge_of_split(lane, list, chosen, others);
    let promoted = ops::render_from(base, 0, selected);
    rebase::lemma_edits_compose(path, base, lane, kept, lane, selected);
    lemma_lane_after(state, path, lane, base, names, list, lane);
    if kept.len() == 0 {
        assert(rebase::merged(lane, selected, lane, kept) =~= selected);
    } else {
        if conflict::lists_conflict(selected, kept, false) {
            let (i, j) = choose|i: int, j: int|
                0 <= i < selected.len() && 0 <= j < kept.len() && conflict::conflicting(
                    #[trigger] selected[i],
                    #[trigger] kept[j],
                    false,
                );
            assert(conflict::apart(selected[i], kept[j]));
        }
    }
    let what = PromotionView::Ops { list: selected, ids };
    repo_laws::lemma_listed_after(
        state,
        path,
        lane,
        lane,
        what,
        Some(base),
        Some(promoted),
        kept,
    );
}

/// Where the operations of another lane are apart from the promoted ones, that lane sees both.
pub proof fn law_clean_edits_compose(
    state: Repo,
    bases: Map<Seq<char>, Option<Seq<u8>>>,
    path: Seq<char>,
    lane: Seq<char>,
    base: Seq<u8>,
    names: Seq<Seq<char>>,
    list: Seq<Op>,
    other: Seq<char>,
    other_list: Seq<Op>,
)
    requires
        upkeep::sound_repo(state, bases),
        state.files.contains_key(path) && bases[path] == Some(base),
        state.files[path].lanes.contains_key(lane),
        state.files[path].lanes[lane] == Entry::Present(list),
        base.len() <= usize::MAX,
        names.len() > 0,
        op_id::first_unknown(lane, list, names) is None,
        ops::render_from(base, 0, op_id::selected_ops(lane, list, names)).len() <= usize::MAX,
        other != lane,
        state.files[path].lanes.contains_key(other),
        state.files[path].lanes[other] == Entry::Present(other_list),
        other_list.len() > 0,
        !conflict::lists_conflict(op_id::selected_ops(lane, list, names), other_list, false),
    ensures
        ({
            let outcome = repo::repo_promote_ops(state, path, lane, Some(base), names);
            let (promoted, after) = outcome->Ok_0;
            &&& outcome is Ok
            &&& repo::repo_read(after, path, other, promoted) == Ok::<
                Option<Seq<u8>>,
                LaneErrorView,
            >(
                Some(
                    ops::render_from(
                        base,
                        0,
                        rebase::merged(
                            lane,
                            op_id::selected_ops(lane, list, names),
                            other,
                            other_list,
                        ),
                    ),
                ),
            )
        }),
{
    assert(state.files[path].lanes.contains_key(other));
    assert(state.lanes.contains(other));
    repo::lemma_base_is_no_lane(state, other);
    repo_laws::lemma_sound_list(state, bases, path, other, other_list);
    lemma_promoted_some(state, bases, path, lane, base, names, list);
    let selected = op_id::selected_ops(lane, list, names);
    assert forall|i: int, j: int| 0 <= i < selected.len() && 0 <= j < other_list.len() implies conflict::apart(
        #[trigger] selected[i],
        #[trigger] other_list[j],
    ) by {
        assert(!conflict::conflicting(selected[i], other_list[j], false));
    }
    rebase::lemma_edits_compose(path, base, other, other_list, lane, selected);
    lemma_lane_after(state, path, lane, base, names, list, other);
}

} // verus!
