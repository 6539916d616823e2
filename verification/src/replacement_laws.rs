//! What holds of one replacement for operations of several lanes.
use vstd::prelude::*;

use crate::combine;
use crate::conflict;
use crate::lane_file;
use crate::lane_file::{Entry, File};
use crate::op_id;
use crate::ops::Op;
use crate::promotion;
use crate::repo;
use crate::repo::Repo;
use crate::repo_laws;
use crate::text_map;
use crate::types::{LaneErrorView, OpSummaryView};
use crate::upkeep;

verus! {

/// The operation that is listed at a place for the lane of a pick.
pub open spec fn listed_at(
    state: Repo,
    path: Seq<char>,
    base: Option<Seq<u8>>,
    pick: (Seq<char>, Seq<char>),
    at: int,
) -> OpSummaryView {
    repo::repo_change_ops(state, path, pick.0, base)->Ok_0[at]
}

/// A pick is the name of the operation that is listed at a place for its lane.
pub open spec fn picks_listed(
    state: Repo,
    path: Seq<char>,
    base: Option<Seq<u8>>,
    pick: (Seq<char>, Seq<char>),
    at: int,
) -> bool {
    &&& repo::repo_change_ops(state, path, pick.0, base) is Ok
    &&& 0 <= at < repo::repo_change_ops(state, path, pick.0, base)->Ok_0.len()
    &&& listed_at(state, path, base, pick, at).op_id == pick.1
}

/// Each pick is the name of a listed operation.
pub open spec fn all_listed(
    state: Repo,
    path: Seq<char>,
    base: Option<Seq<u8>>,
    picks: Seq<(Seq<char>, Seq<char>)>,
    ats: Seq<int>,
) -> bool {
    &&& ats.len() == picks.len()
    &&& forall|i: int|
        0 <= i < picks.len() ==> picks_listed(state, path, base, #[trigger] picks[i], ats[i])
}

/// Some of the lanes that are picked from shows no file.
pub open spec fn picks_deletion(
    state: Repo,
    path: Seq<char>,
    base: Option<Seq<u8>>,
    picks: Seq<(Seq<char>, Seq<char>)>,
) -> bool {
    exists|i: int|
        0 <= i < picks.len() && repo::repo_read(state, path, (#[trigger] picks[i]).0, base) == Ok::<
            Option<Seq<u8>>,
            LaneErrorView,
        >(None)
}

/// What a pick of a listed operation picks.
proof fn lemma_pick(
    state: Repo,
    bases: Map<Seq<char>, Option<Seq<u8>>>,
    path: Seq<char>,
    base: Option<Seq<u8>>,
    pick: (Seq<char>, Seq<char>),
    at: int,
)
    requires
        upkeep::sound_repo(state, bases),
        state.files.contains_key(path) ==> bases[path] == base,
        lane_file::base_bytes(base).len() <= usize::MAX,
        picks_listed(state, path, base, pick, at),
    ensures
        state.lanes.contains(pick.0),
        state.files.contains_key(path),
        state.files[path].base == lane_file::base_state(base),
        state.files[path].lanes.contains_key(pick.0),
        combine::picked_op(state.files[path], base, pick) is Some,
        combine::picked_op(state.files[path], base, pick)->0.start == listed_at(
            state,
            path,
            base,
            pick,
            at,
        ).base_start,
        combine::picked_op(state.files[path], base, pick)->0.end() == listed_at(
            state,
            path,
            base,
            pick,
            at,
        ).base_end,
        state.files[path].lanes[pick.0] is Deleted == (repo::repo_read(state, path, pick.0, base)
            == Ok::<Option<Seq<u8>>, LaneErrorView>(None)),
        state.files[path].lanes[pick.0] matches Entry::Present(list) ==> at < list.len() && pick.1
            == op_id::op_name(pick.0, list[at].id) && op_id::parsed_op_id(pick.0, pick.1) == Some(
            op_id::ParsedOpId::Present(list[at].id as u64),
        ),
{
    repo::lemma_base_is_no_lane(state, pick.0);
    let file = state.files[path];
    assert(file.lanes.contains_key(pick.0));
    match file.lanes[pick.0] {
        Entry::Present(list) => {
            repo_laws::lemma_sound_list(state, bases, path, pick.0, list);
            repo_laws::lemma_named_op(pick.0, list, at);
        },
        Entry::Deleted => {
            op_id::law_delete_name_is_read_back(pick.0);
        },
    }
}

/// Where every pick picks something, none is the first that does not.
proof fn lemma_all_picked(file: File, base: Option<Seq<u8>>, picks: Seq<(Seq<char>, Seq<char>)>)
    requires
        forall|i: int|
            0 <= i < picks.len() ==> combine::picked_op(file, base, #[trigger] picks[i]) is Some,
    ensures
        combine::first_unpicked(file, base, picks) is None,
        combine::first_deleting(file, picks) is Some == (exists|i: int|
            0 <= i < picks.len() && file.lanes[(#[trigger] picks[i]).0] is Deleted),
    decreases picks.len(),
{
    if picks.len() > 0 {
        let rest = picks.drop_first();
        assert forall|i: int| 0 <= i < rest.len() implies combine::picked_op(
            file,
            base,
            #[trigger] rest[i],
        ) is Some by {
            assert(rest[i] == picks[i + 1]);
        }
        lemma_all_picked(file, base, rest);
        assert(combine::picked_op(file, base, picks[0]) is Some);
        if exists|i: int| 0 <= i < rest.len() && file.lanes[(#[trigger] rest[i]).0] is Deleted {
            let i = choose|i: int| 0 <= i < rest.len() && file.lanes[(
            #[trigger] rest[i]).0] is Deleted;
            assert(file.lanes[picks[i + 1].0] is Deleted);
        }
        if exists|i: int| 0 <= i < picks.len() && file.lanes[(#[trigger] picks[i]).0] is Deleted {
            let i = choose|i: int| 0 <= i < picks.len() && file.lanes[(
            #[trigger] picks[i]).0] is Deleted;
            if i > 0 {
                assert(rest[i - 1] == picks[i]);
            }
        }
    }
}

/// Where every lane that is picked from exists, none is the first that is missing.
proof fn lemma_no_lane_missing(state: Repo, picks: Seq<(Seq<char>, Seq<char>)>)
    requires
        forall|i: int| 0 <= i < picks.len() ==> state.lanes.contains((#[trigger] picks[i]).0),
    ensures
        combine::first_missing_lane(state, picks) is None,
    decreases picks.len(),
{
    if picks.len() > 0 {
        let rest = picks.drop_first();
        assert(forall|i: int| 0 <= i < rest.len() ==> rest[i] == picks[i + 1]);
        assert(state.lanes.contains(picks[0].0));
        lemma_no_lane_missing(state, rest);
    }
}

/// What is left of the overlays of a path can be shown.
proof fn lemma_left_is_shown(
    state: Repo,
    bases: Map<Seq<char>, Option<Seq<u8>>>,
    path: Seq<char>,
    base: Option<Seq<u8>>,
    picks: Seq<(Seq<char>, Seq<char>)>,
)
    requires
        upkeep::sound_repo(state, bases),
        state.files.contains_key(path) && bases[path] == base,
        lane_file::base_bytes(base).len() <= usize::MAX,
    ensures
        promotion::snapshot_fault(
            path,
            base,
            combine::left_file(state.files[path], picks).lanes,
            text_map::listing(combine::left_file(state.files[path], picks).lanes.dom()),
        ) is None,
{
    let file = state.files[path];
    let left = combine::left_file(file, picks);
    let bytes = lane_file::base_bytes(base);
    combine::lemma_left_file(file, picks);
    text_map::lemma_listing_exists(left.lanes.dom());
    let keys = text_map::listing(left.lanes.dom());
    assert forall|i: int| 0 <= i < keys.len() implies lane_file::entry_bytes(
        path,
        base,
        left.lanes[#[trigger] keys[i]],
    ) is Ok by {
        let k = keys[i];
        assert(keys.contains(k));
        assert(left.lanes.contains_key(k));
        if let Entry::Present(list) = file.lanes[k] {
            repo_laws::lemma_sound_list(state, bases, path, k, list);
            let keep = |op: Op| !combine::is_taken(picks, k, op.id);
            promotion::lemma_kept_ok(list, keep, bytes.len() as int);
            let kept = combine::left_ops(picks, k, list);
            assert(kept == list.filter(keep));
            conflict::lemma_rendered_ok(path, bytes, kept);
        }
    }
    repo_laws::lemma_no_fault_of_keys(path, base, left.lanes, keys);
}

/// One replacement for listed operations fills the tight range around them: it starts where the
/// first of them starts and ends where the last of them ends, and the base before and after it
/// stays as it was. Where one of the lanes that are picked from has deleted the file, the
/// replacement is all of the new base.
pub proof fn law_replacement_fills_the_tight_range(
    state: Repo,
    bases: Map<Seq<char>, Option<Seq<u8>>>,
    path: Seq<char>,
    base: Option<Seq<u8>>,
    picks: Seq<(Seq<char>, Seq<char>)>,
    ats: Seq<int>,
    replacement: Seq<u8>,
)
    requires
        upkeep::sound_repo(state, bases),
        state.files.contains_key(path) ==> bases[path] == base,
        lane_file::base_bytes(base).len() <= usize::MAX,
        picks.len() > 0,
        all_listed(state, path, base, picks, ats),
    ensures
        ({
            let outcome = combine::repo_combine_ops(state, path, base, picks, replacement);
            let bytes = lane_file::base_bytes(base);
            &&& outcome is Ok
            &&& picks_deletion(state, path, base, picks) ==> outcome->Ok_0.0 == Some(replacement)
            &&& !picks_deletion(state, path, base, picks) ==> exists|start: int, end: int|
                {
                    &&& 0 <= start <= end <= bytes.len()
                    &&& outcome->Ok_0.0 == Some(
                        #[trigger] bytes.subrange(0, start) + replacement
                            + #[trigger] bytes.subrange(end, bytes.len() as int),
                    )
                    &&& forall|i: int|
                        0 <= i < picks.len() ==> start <= listed_at(
                            state,
                            path,
                            base,
                            #[trigger] picks[i],
                            ats[i],
                        ).base_start && listed_at(state, path, base, picks[i], ats[i]).base_end
                            <= end
                    &&& exists|i: int|
                        0 <= i < picks.len() && listed_at(
                            state,
                            path,
                            base,
                            #[trigger] picks[i],
                            ats[i],
                        ).base_start == start
                    &&& exists|i: int|
                        0 <= i < picks.len() && listed_at(
                            state,
                            path,
                            base,
                            #[trigger] picks[i],
                            ats[i],
                        ).base_end == end
                }
        }),
{
    let file = state.files[path];
    assert forall|i: int| 0 <= i < picks.len() implies {
        &&& state.lanes.contains((#[trigger] picks[i]).0)
        &&& state.files.contains_key(path)
        &&& state.files[path].base == lane_file::base_state(base)
        &&& combine::picked_op(file, base, picks[i]) is Some
        &&& combine::picked_op(file, base, picks[i])->0.start == listed_at(
            state,
            path,
            base,
            picks[i],
            ats[i],
        ).base_start
        &&& combine::picked_op(file, base, picks[i])->0.end() == listed_at(
            state,
            path,
            base,
            picks[i],
            ats[i],
        ).base_end
        &&& file.lanes[picks[i].0] is Deleted == (repo::repo_read(state, path, picks[i].0, base)
            == Ok::<Option<Seq<u8>>, LaneErrorView>(None))
    } by {
        lemma_pick(state, bases, path, base, picks[i], ats[i]);
    }
    assert(state.lanes.contains(picks[0].0));
    lemma_no_lane_missing(state, picks);
    lemma_all_picked(file, base, picks);
    lemma_left_is_shown(state, bases, path, base, picks);
    assert(lane_file::file_ok(file));
    let list = combine::picked_ops(file, base, picks);
    let bytes = lane_file::base_bytes(base);
    assert(picks_deletion(state, path, base, picks) == (combine::first_deleting(file, picks) is Some));
    if combine::first_deleting(file, picks) is None {
        combine::lemma_picked_sound(file, base, picks);
        combine::lemma_span(list);
        let start = combine::least_start(list);
        let end = combine::greatest_end(list);
        let op = combine::combined_op(list, replacement);
        assert(end <= bytes.len()) by {
            let i = choose|i: int| 0 <= i < list.len() && (#[trigger] list[i]).end() == end;
            let k = picks[i].0;
            let own = file.lanes[k]->Present_0;
            lemma_pick(state, bases, path, base, picks[i], ats[i]);
            repo_laws::lemma_sound_list(state, bases, path, k, own);
            assert(own[ats[i]].end() <= bytes.len());
        }
        conflict::lemma_rendered_ok(path, bytes, seq![op]);
        combine::law_replacement_fills_the_range(file, path, base, picks, replacement);
        let outcome = combine::repo_combine_ops(state, path, base, picks, replacement);
        assert(outcome->Ok_0.0 == Some(
            bytes.subrange(0, start) + replacement + bytes.subrange(end, bytes.len() as int),
        ));
        let first = choose|i: int| 0 <= i < list.len() && (#[trigger] list[i]).start == start;
        let last = choose|i: int| 0 <= i < list.len() && (#[trigger] list[i]).end() == end;
        assert(listed_at(state, path, base, picks[first], ats[first]).base_start == start);
        assert(listed_at(state, path, base, picks[last], ats[last]).base_end == end);
        assert forall|i: int| 0 <= i < picks.len() implies start <= listed_at(
            state,
            path,
            base,
            #[trigger] picks[i],
            ats[i],
        ).base_start && listed_at(state, path, base, picks[i], ats[i]).base_end <= end by {
            assert(start <= list[i].start);
        }
    }
}

/// Whether an operation of a lane is picked by name.
pub open spec fn is_picked(picks: Seq<(Seq<char>, Seq<char>)>, k: Seq<char>, name: Seq<char>) -> bool {
    picks.contains((k, name))
}

/// The listed operations of a lane that are not picked.
pub open spec fn unpicked(
    listed: Seq<OpSummaryView>,
    picks: Seq<(Seq<char>, Seq<char>)>,
    k: Seq<char>,
) -> Seq<OpSummaryView> {
    listed.filter(|op: OpSummaryView| !is_picked(picks, k, op.op_id))
}

/// An operation is clear of all picked ones: it ends before each of them begins, or begins after
/// each of them ends.
pub open spec fn clear_of_picks(
    state: Repo,
    path: Seq<char>,
    base: Option<Seq<u8>>,
    picks: Seq<(Seq<char>, Seq<char>)>,
    ats: Seq<int>,
    op: OpSummaryView,
) -> bool {
    ||| forall|i: int|
        0 <= i < picks.len() ==> op.base_end <= listed_at(
            state,
            path,
            base,
            #[trigger] picks[i],
            ats[i],
        ).base_start
    ||| forall|i: int|
        0 <= i < picks.len() ==> listed_at(
            state,
            path,
            base,
            #[trigger] picks[i],
            ats[i],
        ).base_end <= op.base_start
}

/// The listed operations that pass are those of the operations that pass.
pub(crate) proof fn lemma_filter_listed(
    list: Seq<Op>,
    listed: Seq<OpSummaryView>,
    keep: spec_fn(Op) -> bool,
    wanted: spec_fn(OpSummaryView) -> bool,
    file: File,
    path: Seq<char>,
    lane: Seq<char>,
    base: Option<Seq<u8>>,
)
    requires
        listed.len() == list.len(),
        forall|i: int|
            0 <= i < list.len() ==> (#[trigger] listed[i]) == lane_file::op_summary(
                file,
                path,
                lane,
                list[i],
                base,
            ) && wanted(listed[i]) == keep(list[i]),
    ensures
        listed.filter(wanted).len() == list.filter(keep).len(),
        forall|i: int|
            0 <= i < list.filter(keep).len() ==> (#[trigger] listed.filter(wanted)[i])
                == lane_file::op_summary(file, path, lane, list.filter(keep)[i], base),
    decreases list.len(),
{
    reveal(Seq::filter);
    if list.len() > 0 {
        let rest = list.drop_last();
        let shown = listed.drop_last();
        assert forall|i: int| 0 <= i < rest.len() implies (#[trigger] shown[i])
            == lane_file::op_summary(file, path, lane, rest[i], base) && wanted(shown[i]) == keep(
            rest[i],
        ) by {
            assert(shown[i] == listed[i]);
        }
        lemma_filter_listed(rest, shown, keep, wanted, file, path, lane, base);
        assert(wanted(listed[list.len() - 1]) == keep(list[list.len() - 1]));
    }
}

/// The picked operations leave their lanes, and no others do. Over a base that is there, a lane
/// whose other operations are clear of all picked ones keeps those, under their names, in their
/// order, and with as many bytes replaced and inserted. A lane that keeps none shows the new base.
pub proof fn law_picked_operations_leave_their_lanes(
    state: Repo,
    bases: Map<Seq<char>, Option<Seq<u8>>>,
    path: Seq<char>,
    base: Option<Seq<u8>>,
    picks: Seq<(Seq<char>, Seq<char>)>,
    ats: Seq<int>,
    replacement: Seq<u8>,
    k: Seq<char>,
)
    requires
        upkeep::sound_repo(state, bases),
        state.files.contains_key(path) ==> bases[path] == base,
        lane_file::base_bytes(base).len() <= usize::MAX,
        base is Some,
        picks.len() > 0,
        all_listed(state, path, base, picks, ats),
        !picks_deletion(state, path, base, picks),
        repo::repo_change_ops(state, path, k, base) is Ok,
        repo::repo_change_ops(state, path, k, base)->Ok_0.len() > 0,
        repo::repo_read(state, path, k, base) != Ok::<Option<Seq<u8>>, LaneErrorView>(None),
        forall|i: int|
            0 <= i < unpicked(
                repo::repo_change_ops(state, path, k, base)->Ok_0,
                picks,
                k,
            ).len() ==> clear_of_picks(
                state,
                path,
                base,
                picks,
                ats,
                #[trigger] unpicked(repo::repo_change_ops(state, path, k, base)->Ok_0, picks, k)[i],
            ),
    ensures
        ({
            let (promoted, after) = combine::repo_combine_ops(
                state,
                path,
                base,
                picks,
                replacement,
            )->Ok_0;
            let left = unpicked(repo::repo_change_ops(state, path, k, base)->Ok_0, picks, k);
            let listed = repo::repo_change_ops(after, path, k, promoted);
            &&& listed is Ok
            &&& listed->Ok_0.len() == left.len()
            &&& forall|i: int| 0 <= i < left.len() ==> {
                &&& (#[trigger] listed->Ok_0[i]).op_id == left[i].op_id
                &&& listed->Ok_0[i].base_end - listed->Ok_0[i].base_start == left[i].base_end
                    - left[i].base_start
                &&& listed->Ok_0[i].inserted_len == left[i].inserted_len
            }
            &&& left.len() == 0 ==> repo::repo_read(after, path, k, promoted) == Ok::<
                Option<Seq<u8>>,
                LaneErrorView,
            >(promoted)
        }),
{
    repo::lemma_base_is_no_lane(state, k);
    let file = state.files[path];
    let listed = repo::repo_change_ops(state, path, k, base)->Ok_0;
    law_replacement_fills_the_tight_range(state, bases, path, base, picks, ats, replacement);
    let (promoted, after) = combine::repo_combine_ops(state, path, base, picks, replacement)->Ok_0;
    assert(file.lanes.contains_key(k));
    let list = file.lanes[k]->Present_0;
    repo_laws::lemma_sound_list(state, bases, path, k, list);
    assert forall|i: int| 0 <= i < picks.len() implies {
        &&& combine::picked_op(file, base, #[trigger] picks[i]) is Some
        &&& combine::picked_op(file, base, picks[i])->0.start == listed_at(
            state,
            path,
            base,
            picks[i],
            ats[i],
        ).base_start
        &&& combine::picked_op(file, base, picks[i])->0.end() == listed_at(
            state,
            path,
            base,
            picks[i],
            ats[i],
        ).base_end
        &&& file.lanes[picks[i].0] is Present
        &&& file.lanes[picks[i].0] matches Entry::Present(own) ==> ats[i] < own.len() && picks[i].1
            == op_id::op_name(picks[i].0, own[ats[i]].id) && op_id::parsed_op_id(
            picks[i].0,
            picks[i].1,
        ) == Some(op_id::ParsedOpId::Present(own[ats[i]].id as u64))
    } by {
        lemma_pick(state, bases, path, base, picks[i], ats[i]);
    }
    assert(combine::picked_op(file, base, picks[0]) is Some);
    lemma_all_picked(file, base, picks);
    combine::lemma_picked_sound(file, base, picks);
    let chosen = combine::picked_ops(file, base, picks);
    combine::lemma_span(chosen);
    let op = combine::combined_op(chosen, replacement);
    let keep = |o: Op| !combine::is_taken(picks, k, o.id);
    let wanted = |o: OpSummaryView| !is_picked(picks, k, o.op_id);
    assert forall|i: int| 0 <= i < list.len() implies (#[trigger] listed[i])
        == lane_file::op_summary(file, path, k, list[i], base) && wanted(listed[i]) == keep(
        list[i],
    ) by {
        repo_laws::lemma_named_op(k, list, i);
        if combine::is_taken(picks, k, list[i].id) {
            let j = choose|j: int|
                0 <= j < picks.len() && (#[trigger] picks[j]).0 == k && op_id::parsed_op_id(
                    k,
                    picks[j].1,
                ) == Some(op_id::ParsedOpId::Present(list[i].id as u64));
            assert(list[ats[j]].id == list[i].id);
            if ats[j] < i {
                assert(list[ats[j]].id != list[i].id);
            }
            if i < ats[j] {
                assert(list[i].id != list[ats[j]].id);
            }
            assert(picks[j] == (k, listed[i].op_id));
        }
        if is_picked(picks, k, listed[i].op_id) {
            let j = choose|j: int| 0 <= j < picks.len() && picks[j] == (k, listed[i].op_id);
            assert(picks[j].0 == k);
            assert(combine::is_taken(picks, k, list[i].id));
        }
    }
    lemma_filter_listed(list, listed, keep, wanted, file, path, k, base);
    let kept = combine::left_ops(picks, k, list);
    assert(kept == list.filter(keep));
    let left = unpicked(listed, picks, k);
    assert(left == listed.filter(wanted));
    let rest = combine::left_file(file, picks);
    if kept.len() == 0 {
        assert(!rest.lanes.contains_key(k));
    } else {
        assert(rest.lanes.contains_key(k) && rest.lanes[k] == Entry::Present(kept));
        if conflict::lists_conflict(seq![op], kept, false) {
            let (i, j) = choose|i: int, j: int|
                0 <= i < 1 && 0 <= j < kept.len() && conflict::conflicting(
                    #[trigger] seq![op][i],
                    #[trigger] kept[j],
                    false,
                );
            assert(clear_of_picks(state, path, base, picks, ats, left[j]));
            let first = choose|f: int|
                0 <= f < chosen.len() && (#[trigger] chosen[f]).start == combine::least_start(
                    chosen,
                );
            let last = choose|f: int|
                0 <= f < chosen.len() && (#[trigger] chosen[f]).end() == combine::greatest_end(
                    chosen,
                );
            assert(listed_at(state, path, base, picks[first], ats[first]).base_start == op.start);
            assert(listed_at(state, path, base, picks[last], ats[last]).base_end == op.end());
            assert(left[j] == lane_file::op_summary(file, path, k, kept[j], base));
            assert(conflict::apart(op, kept[j]));
        }
        let lane = picks[0].0;
        let none = Set::<u64>::empty();
        lane_file::lemma_filter_all(kept, |o: Op| !none.contains(o.id as u64));
        assert(promotion::retained_ops(lane, k, kept, none) == kept);
        let what = promotion::PromotionView::Ops { list: seq![op], ids: none };
        let between = Repo { files: state.files.insert(path, rest), ..state };
        repo_laws::lemma_listed_after(between, path, lane, k, what, base, promoted, kept);
        let lanes = promotion::promoted_lanes(what, rest.lanes, path, lane, base, promoted);
        let next = File { base: lane_file::base_state(promoted), lanes };
        assert(repo::with_file(between.files, path, next) =~= repo::with_file(
            state.files,
            path,
            next,
        ));
        assert(after == Repo { files: repo::with_file(state.files, path, next), ..state });
    }
}

} // verus!
