//! What holds of repos whose overlays rest on the base files they were recorded over.
use vstd::prelude::*;

use crate::conflict;
use crate::lane_file;
use crate::lane_file::{Entry, File};
use crate::laws;
use crate::op_id;
use crate::op_id::ParsedOpId;
use crate::ops;
use crate::ops::Op;
use crate::promotion;
use crate::promotion::PromotionView;
use crate::rebase;
use crate::repo;
use crate::repo::Repo;
use crate::text;
use crate::text_map;
use crate::types::{LaneErrorView, OpDetailView, OpSummaryView};
use crate::upkeep;

verus! {

/// Some lane has an overlay at the path.
pub open spec fn has_overlay(state: Repo, path: Seq<char>) -> bool {
    exists|k: Seq<char>| #[trigger] repo::overlaid(state, k).contains(path)
}

/// The digest tells a base file from the one that the overlays of a path rest on.
pub open spec fn told_apart(
    state: Repo,
    bases: Map<Seq<char>, Option<Seq<u8>>>,
    path: Seq<char>,
    base: Option<Seq<u8>>,
) -> bool {
    state.files.contains_key(path) && lane_file::base_state(base) == lane_file::base_state(
        bases[path],
    ) ==> base == bases[path]
}

/// A path is known exactly where some lane has an overlay.
proof fn lemma_known_has_overlay(
    state: Repo,
    bases: Map<Seq<char>, Option<Seq<u8>>>,
    path: Seq<char>,
)
    requires
        upkeep::rests_on(state, bases),
    ensures
        has_overlay(state, path) == state.files.contains_key(path),
{
    if state.files.contains_key(path) {
        let lanes = state.files[path].lanes;
        if !exists|k: Seq<char>| lanes.contains_key(k) {
            assert(lanes =~= Map::<Seq<char>, Entry>::empty());
        }
        let k = choose|k: Seq<char>| lanes.contains_key(k);
        assert(repo::overlaid(state, k).contains(path));
    }
}

/// Reading fails where the lane is missing, or where some lane has an overlay that rests on
/// another base file, and nowhere else.
pub proof fn law_reading_fails_on_a_changed_base(
    state: Repo,
    bases: Map<Seq<char>, Option<Seq<u8>>>,
    path: Seq<char>,
    lane: Seq<char>,
    base: Option<Seq<u8>>,
)
    requires
        upkeep::rests_on(state, bases),
        told_apart(state, bases, path, base),
        lane != "base"@,
    ensures
        ({
            let seen = repo::repo_read(state, path, lane, base);
            let stale = has_overlay(state, path) && base != bases[path];
            if !state.lanes.contains(lane) {
                seen == Err::<Option<Seq<u8>>, LaneErrorView>(LaneErrorView::LaneMissing(lane))
            } else if stale {
                seen == Err::<Option<Seq<u8>>, LaneErrorView>(LaneErrorView::BaseChanged(path))
            } else {
                seen is Ok
            }
        }),
{
    lemma_known_has_overlay(state, bases, path);
}

/// Writing fails where the lane is missing, or where some lane has an overlay that rests on
/// another base file, and nowhere else.
pub proof fn law_writing_fails_on_a_changed_base(
    state: Repo,
    bases: Map<Seq<char>, Option<Seq<u8>>>,
    path: Seq<char>,
    lane: Seq<char>,
    base: Option<Seq<u8>>,
    content: Option<Seq<u8>>,
)
    requires
        upkeep::rests_on(state, bases),
        told_apart(state, bases, path, base),
    ensures
        ({
            let written = repo::repo_replace(state, path, lane, base, content);
            let stale = has_overlay(state, path) && base != bases[path];
            if !state.lanes.contains(lane) {
                written == Err::<Repo, LaneErrorView>(LaneErrorView::LaneMissing(lane))
            } else if stale {
                written == Err::<Repo, LaneErrorView>(LaneErrorView::BaseChanged(path))
            } else {
                written is Ok
            }
        }),
{
    lemma_known_has_overlay(state, bases, path);
}

/// What is known of the operations of a lane in a sound repo.
pub(crate) proof fn lemma_sound_list(
    state: Repo,
    bases: Map<Seq<char>, Option<Seq<u8>>>,
    path: Seq<char>,
    lane: Seq<char>,
    list: Seq<Op>,
)
    requires
        upkeep::sound_repo(state, bases),
        state.files.contains_key(path),
        state.files[path].lanes.contains_key(lane),
        state.files[path].lanes[lane] == Entry::Present(list),
        lane_file::base_bytes(bases[path]).len() <= usize::MAX,
    ensures
        rebase::tidy(list),
        lane_file::numbered(list),
        lane_file::ops_ok(list),
        conflict::all_within(list, lane_file::base_bytes(bases[path]).len() as int),
        ops::sort_ops(list) == list,
        ops::rendered(path, lane_file::base_bytes(bases[path]), list) == Ok::<
            Seq<u8>,
            LaneErrorView,
        >(ops::render_from(lane_file::base_bytes(bases[path]), 0, list)),
{
    let file = state.files[path];
    assert(lane_file::file_ok(file));
    assert(lane_file::entry_ok(file.lanes[lane]));
    assert(upkeep::file_tidy(file));
    assert(lane_file::entry_tidy(file.lanes[lane]));
    assert(lane_file::entry_bytes(path, bases[path], file.lanes[lane]) is Ok);
    conflict::lemma_rendered_ok(path, lane_file::base_bytes(bases[path]), list);
    ops::lemma_sort_ops_of_sorted(list);
}

/// The operation that a name of a numbered list refers to is the one that has the name.
pub(crate) proof fn lemma_named_op(lane: Seq<char>, list: Seq<Op>, i: int)
    requires
        lane_file::numbered(list),
        0 <= i < list.len(),
    ensures
        op_id::parsed_op_id(lane, op_id::op_name(lane, list[i].id)) == Some(
            ParsedOpId::Present(list[i].id as u64),
        ),
        op_id::has_id(list, list[i].id),
        lane_file::op_with_id(list, list[i].id) == list[i],
{
    op_id::law_op_name_is_read_back(lane, list[i].id);
    assert forall|j: int| 0 <= j < i implies (#[trigger] list[j]).id != list[i].id by {}
    lane_file::lemma_op_with_id(list, list[i].id, i);
}

/// The detail of a listed operation is that operation: it is summed up as it was listed, and has
/// the bytes of the base that it replaces and as many inserted bytes as the list says.
pub proof fn law_listed_op_has_its_detail(
    state: Repo,
    bases: Map<Seq<char>, Option<Seq<u8>>>,
    path: Seq<char>,
    lane: Seq<char>,
    base: Option<Seq<u8>>,
    i: int,
)
    requires
        upkeep::sound_repo(state, bases),
        state.files.contains_key(path) ==> bases[path] == base,
        lane_file::base_bytes(base).len() <= usize::MAX,
        repo::repo_change_ops(state, path, lane, base) is Ok,
        0 <= i < repo::repo_change_ops(state, path, lane, base)->Ok_0.len(),
    ensures
        ({
            let listed = repo::repo_change_ops(state, path, lane, base)->Ok_0[i];
            let found = repo::repo_op_detail(state, path, lane, base, listed.op_id);
            &&& found is Ok
            &&& found->Ok_0.summary == listed
            &&& 0 <= listed.base_start <= listed.base_end <= lane_file::base_bytes(base).len()
            &&& found->Ok_0.base == lane_file::base_bytes(base).subrange(
                listed.base_start,
                listed.base_end,
            )
            &&& found->Ok_0.inserted.len() == listed.inserted_len
        }),
{
    let file = state.files[path];
    match file.lanes[lane] {
        Entry::Present(list) => {
            lemma_sound_list(state, bases, path, lane, list);
            lemma_named_op(lane, list, i);
            assert(list[i].end() <= lane_file::base_bytes(base).len());
        },
        Entry::Deleted => {
            op_id::law_delete_name_is_read_back(lane);
            let bytes = lane_file::base_bytes(base);
            assert(bytes.subrange(0, bytes.len() as int) =~= bytes);
        },
    }
}

/// Where a listed operation has a detail, the detail sums it up as it was listed.
pub proof fn lemma_detail_is_listed(
    state: Repo,
    path: Seq<char>,
    lane: Seq<char>,
    base: Option<Seq<u8>>,
    i: int,
)
    requires
        upkeep::repo_tidy(state),
        repo::repo_change_ops(state, path, lane, base) is Ok,
        0 <= i < repo::repo_change_ops(state, path, lane, base)->Ok_0.len(),
        repo::repo_op_detail(
            state,
            path,
            lane,
            base,
            repo::repo_change_ops(state, path, lane, base)->Ok_0[i].op_id,
        ) is Ok,
    ensures
        ({
            let listed = repo::repo_change_ops(state, path, lane, base)->Ok_0[i];
            &&& listed.lane == lane
            &&& listed.path == path
            &&& repo::repo_op_detail(state, path, lane, base, listed.op_id)->Ok_0.summary == listed
        }),
{
    let file = state.files[path];
    assert(upkeep::file_tidy(file));
    assert(lane_file::entry_tidy(file.lanes[lane]));
    if let Entry::Present(list) = file.lanes[lane] {
        lemma_named_op(lane, list, i);
    }
}

/// The base with each range replaced by what is inserted there, from `cursor` on.
pub open spec fn assembled(base: Seq<u8>, cursor: int, details: Seq<OpDetailView>) -> Seq<u8>
    decreases details.len(),
{
    if details.len() == 0 {
        base.subrange(cursor, base.len() as int)
    } else {
        base.subrange(cursor, details[0].summary.base_start) + details[0].inserted + assembled(
            base,
            details[0].summary.base_end,
            details.drop_first(),
        )
    }
}

/// The details of all listed operations of a lane.
pub open spec fn all_details(state: Repo, path: Seq<char>, lane: Seq<char>, base: Option<Seq<u8>>) -> Seq<
    OpDetailView,
> {
    repo::repo_change_ops(state, path, lane, base)->Ok_0.map_values(
        |listed: OpSummaryView|
            repo::repo_op_detail(state, path, lane, base, listed.op_id)->Ok_0,
    )
}

/// Assembling details is applying the operations they tell of.
pub(crate) proof fn lemma_assembled(base: Seq<u8>, cursor: int, details: Seq<OpDetailView>, list: Seq<Op>)
    requires
        details.len() == list.len(),
        forall|i: int|
            0 <= i < list.len() ==> (#[trigger] details[i]).summary.base_start == list[i].start
                && details[i].summary.base_end == list[i].end() && details[i].inserted
                == list[i].inserted,
    ensures
        assembled(base, cursor, details) == ops::render_from(base, cursor, list),
    decreases list.len(),
{
    if list.len() > 0 {
        assert(details[0].summary.base_start == list[0].start);
        let rest = details.drop_first();
        assert forall|i: int| 0 <= i < list.len() - 1 implies (
        #[trigger] rest[i]).summary.base_start == list.drop_first()[i].start
            && rest[i].summary.base_end == list.drop_first()[i].end() && rest[i].inserted
            == list.drop_first()[i].inserted by {
            assert(rest[i] == details[i + 1]);
        }
        lemma_assembled(base, list[0].end(), rest, list.drop_first());
    }
}

/// Replacing the range of each listed operation by the bytes of its detail turns the base into
/// what the lane sees.
pub proof fn law_details_make_the_view(
    state: Repo,
    bases: Map<Seq<char>, Option<Seq<u8>>>,
    path: Seq<char>,
    lane: Seq<char>,
    base: Option<Seq<u8>>,
    seen: Seq<u8>,
)
    requires
        upkeep::sound_repo(state, bases),
        state.files.contains_key(path) && bases[path] == base,
        state.files[path].lanes.contains_key(lane),
        lane_file::base_bytes(base).len() <= usize::MAX,
        repo::repo_read(state, path, lane, base) == Ok::<Option<Seq<u8>>, LaneErrorView>(
            Some(seen),
        ),
    ensures
        assembled(lane_file::base_bytes(base), 0, all_details(state, path, lane, base)) == seen,
{
    assert(state.files[path].lanes.contains_key(lane));
    assert(state.lanes.contains(lane));
    repo::lemma_base_is_no_lane(state, lane);
    assert(state.files[path].base == lane_file::base_state(base));
    let list = state.files[path].lanes[lane]->Present_0;
    lemma_sound_list(state, bases, path, lane, list);
    let listed = repo::repo_change_ops(state, path, lane, base)->Ok_0;
    let details = all_details(state, path, lane, base);
    assert forall|i: int| 0 <= i < list.len() implies (#[trigger] details[i]).summary.base_start
        == list[i].start && details[i].summary.base_end == list[i].end() && details[i].inserted
        == list[i].inserted by {
        law_listed_op_has_its_detail(state, bases, path, lane, base, i);
        lemma_named_op(lane, list, i);
        assert(details[i] == repo::repo_op_detail(state, path, lane, base, listed[i].op_id)->Ok_0);
    }
    lemma_assembled(lane_file::base_bytes(base), 0, details, list);
}

/// No lane stands in the way of a promotion where every overlay can be shown.
pub(crate) proof fn lemma_no_fault_of_keys(
    path: Seq<char>,
    base: Option<Seq<u8>>,
    lanes: Map<Seq<char>, Entry>,
    keys: Seq<Seq<char>>,
)
    requires
        forall|i: int|
            0 <= i < keys.len() ==> lane_file::entry_bytes(path, base, lanes[#[trigger] keys[i]]) is Ok,
    ensures
        promotion::snapshot_fault(path, base, lanes, keys) is None,
    decreases keys.len(),
{
    if keys.len() > 0 {
        assert(lane_file::entry_bytes(path, base, lanes[keys[0]]) is Ok);
        let rest = keys.drop_first();
        assert(forall|i: int| 0 <= i < rest.len() ==> rest[i] == keys[i + 1]);
        lemma_no_fault_of_keys(path, base, lanes, rest);
    }
}

/// In a sound repo no lane stands in the way of a promotion.
pub(crate) proof fn lemma_nothing_in_the_way(
    state: Repo,
    bases: Map<Seq<char>, Option<Seq<u8>>>,
    path: Seq<char>,
)
    requires
        upkeep::sound_repo(state, bases),
        state.files.contains_key(path),
    ensures
        promotion::snapshot_fault(
            path,
            bases[path],
            state.files[path].lanes,
            text_map::listing(state.files[path].lanes.dom()),
        ) is None,
{
    let lanes = state.files[path].lanes;
    let keys = text_map::listing(lanes.dom());
    text_map::lemma_listing_exists(lanes.dom());
    assert forall|i: int| 0 <= i < keys.len() implies lane_file::entry_bytes(
        path,
        bases[path],
        lanes[#[trigger] keys[i]],
    ) is Ok by {
        assert(keys.contains(keys[i]));
        assert(lanes.contains_key(keys[i]));
    }
    lemma_no_fault_of_keys(path, bases[path], lanes, keys);
}

/// The names of all listed operations of a lane.
pub open spec fn all_names(state: Repo, path: Seq<char>, lane: Seq<char>, base: Option<Seq<u8>>) -> Seq<
    Seq<char>,
> {
    repo::repo_change_ops(state, path, lane, base)->Ok_0.map_values(
        |listed: OpSummaryView| listed.op_id,
    )
}

/// The names of all operations refer to all of them.
pub(crate) proof fn lemma_all_named(lane: Seq<char>, list: Seq<Op>, names: Seq<Seq<char>>)
    requires
        lane_file::numbered(list),
        names.len() == list.len(),
        forall|i: int|
            0 <= i < list.len() ==> #[trigger] names[i] == op_id::op_name(lane, list[i].id),
    ensures
        op_id::first_unknown(lane, list, names) is None,
        op_id::selected_ops(lane, list, names) == list,
        forall|i: int|
            0 <= i < list.len() ==> op_id::is_selected(lane, names, (#[trigger] list[i]).id),
{
    assert forall|i: int| 0 <= i < names.len() implies op_id::names_present(
        lane,
        list,
        #[trigger] names[i],
    ) by {
        lemma_named_op(lane, list, i);
    }
    lemma_none_unknown(lane, list, names);
    assert forall|i: int| 0 <= i < list.len() implies op_id::is_selected(
        lane,
        names,
        (#[trigger] list[i]).id,
    ) by {
        lemma_named_op(lane, list, i);
        assert(op_id::parsed_op_id(lane, names[i]) == Some(
            ParsedOpId::Present(list[i].id as u64),
        ));
    }
    lane_file::lemma_filter_all(list, |op: Op| op_id::is_selected(lane, names, op.id));
}

pub(crate) proof fn lemma_none_unknown(lane: Seq<char>, list: Seq<Op>, names: Seq<Seq<char>>)
    requires
        forall|i: int|
            0 <= i < names.len() ==> op_id::names_present(lane, list, #[trigger] names[i]),
    ensures
        op_id::first_unknown(lane, list, names) is None,
    decreases names.len(),
{
    if names.len() > 0 {
        assert(op_id::names_present(lane, list, names[0]));
        let rest = names.drop_first();
        assert(forall|i: int| 0 <= i < rest.len() ==> rest[i] == names[i + 1]);
        lemma_none_unknown(lane, list, rest);
    }
}

/// Promoting all operations of a lane that shows a file.
pub(crate) proof fn lemma_all_present(
    state: Repo,
    bases: Map<Seq<char>, Option<Seq<u8>>>,
    path: Seq<char>,
    lane: Seq<char>,
    list: Seq<Op>,
    names: Seq<Seq<char>>,
)
    requires
        upkeep::sound_repo(state, bases),
        state.files.contains_key(path),
        state.files[path].lanes.contains_key(lane),
        state.files[path].lanes[lane] == Entry::Present(list),
        lane_file::base_bytes(bases[path]).len() <= usize::MAX,
        list.len() > 0,
        names.len() == list.len(),
        forall|i: int|
            0 <= i < list.len() ==> #[trigger] names[i] == op_id::op_name(lane, list[i].id),
    ensures
        ({
            let outcome = repo::repo_promote_ops(state, path, lane, bases[path], names);
            &&& outcome is Ok
            &&& outcome->Ok_0.0 == Some(
                ops::render_from(lane_file::base_bytes(bases[path]), 0, list),
            )
        }),
{
    let file = state.files[path];
    assert(file.lanes.contains_key(lane));
    assert(state.lanes.contains(lane));
    lemma_nothing_in_the_way(state, bases, path);
    lemma_sound_list(state, bases, path, lane, list);
    lemma_all_named(lane, list, names);
    assert(promotion::file_promote_ops(file, path, lane, bases[path], names)
        == promotion::finish_ops(
        file,
        path,
        lane,
        bases[path],
        list,
        promotion::selected_set(lane, names),
    ));
}

/// Promoting the deletion of a file.
pub(crate) proof fn lemma_all_deleted(
    state: Repo,
    bases: Map<Seq<char>, Option<Seq<u8>>>,
    path: Seq<char>,
    lane: Seq<char>,
)
    requires
        upkeep::sound_repo(state, bases),
        state.files.contains_key(path),
        state.files[path].lanes.contains_key(lane),
        state.files[path].lanes[lane] is Deleted,
    ensures
        ({
            let outcome = repo::repo_promote_ops(
                state,
                path,
                lane,
                bases[path],
                seq![op_id::delete_name(lane)],
            );
            &&& outcome is Ok
            &&& outcome->Ok_0.0 is None
            &&& !repo::overlaid(outcome->Ok_0.1, lane).contains(path)
        }),
{
    let file = state.files[path];
    let names = seq![op_id::delete_name(lane)];
    assert(file.lanes.contains_key(lane));
    assert(state.lanes.contains(lane));
    lemma_nothing_in_the_way(state, bases, path);
    op_id::law_delete_name_is_read_back(lane);
    assert(names.drop_first() =~= Seq::empty());
    reveal_with_fuel(op_id::first_not_delete, 2);
    assert(op_id::first_not_delete(lane, names) is None);
}

/// Promoting all operations of a lane succeeds, makes what the lane saw the base, and leaves the
/// lane without an overlay at the path.
pub proof fn law_promoting_all_makes_the_view_the_base(
    state: Repo,
    bases: Map<Seq<char>, Option<Seq<u8>>>,
    path: Seq<char>,
    lane: Seq<char>,
    base: Option<Seq<u8>>,
)
    requires
        upkeep::sound_repo(state, bases),
        state.files.contains_key(path) && bases[path] == base,
        state.files[path].lanes.contains_key(lane),
        lane_file::base_bytes(base).len() <= usize::MAX,
        repo::repo_change_ops(state, path, lane, base)->Ok_0.len() > 0,
    ensures
        ({
            let seen = repo::repo_read(state, path, lane, base);
            let outcome = repo::repo_promote_ops(
                state,
                path,
                lane,
                base,
                all_names(state, path, lane, base),
            );
            &&& seen is Ok
            &&& outcome is Ok
            &&& outcome->Ok_0.0 == seen->Ok_0
            &&& !repo::overlaid(outcome->Ok_0.1, lane).contains(path)
            &&& repo::repo_read(outcome->Ok_0.1, path, lane, seen->Ok_0) == seen
        }),
{
    let file = state.files[path];
    assert(file.lanes.contains_key(lane));
    assert(state.lanes.contains(lane));
    repo::lemma_base_is_no_lane(state, lane);
    let names = all_names(state, path, lane, base);
    let outcome = repo::repo_promote_ops(state, path, lane, base, names);
    match file.lanes[lane] {
        Entry::Present(list) => {
            lemma_sound_list(state, bases, path, lane, list);
            assert forall|i: int| 0 <= i < list.len() implies #[trigger] names[i] == op_id::op_name(
                lane,
                list[i].id,
            ) by {}
            lemma_all_present(state, bases, path, lane, list, names);
            assert(repo::repo_read(state, path, lane, base) == Ok::<
                Option<Seq<u8>>,
                LaneErrorView,
            >(outcome->Ok_0.0));
            lemma_all_named(lane, list, names);
            laws::law_promoted_lane_follows(state, path, lane, base, names, list);
        },
        Entry::Deleted => {
            assert(names =~= seq![op_id::delete_name(lane)]);
            lemma_all_deleted(state, bases, path, lane);
            assert(repo::repo_read(state, path, lane, base) == Ok::<
                Option<Seq<u8>>,
                LaneErrorView,
            >(None));
            let after = outcome->Ok_0.1;
            assert(after.lanes == state.lanes);
            assert(after.files.contains_key(path) ==> after.files[path].base
                == lane_file::base_state(None));
            assert(repo::repo_read(after, path, lane, None) == Ok::<
                Option<Seq<u8>>,
                LaneErrorView,
            >(None));
        },
    }
}

/// Listed operations are those of `left`: the same names, in the same order, with as many bytes
/// replaced and inserted.
pub open spec fn lists_ops(lane: Seq<char>, listed: Seq<OpSummaryView>, left: Seq<Op>) -> bool {
    &&& listed.len() == left.len()
    &&& forall|i: int| 0 <= i < left.len() ==> {
        &&& (#[trigger] listed[i]).op_id == op_id::op_name(lane, left[i].id)
        &&& listed[i].base_end - listed[i].base_start == left[i].len
        &&& listed[i].inserted_len == left[i].inserted.len()
    }
}

/// What is listed for a lane after a promotion that leaves it `left` at other positions, or
/// nothing.
pub(crate) proof fn lemma_listed_after(
    state: Repo,
    path: Seq<char>,
    lane: Seq<char>,
    k: Seq<char>,
    what: PromotionView,
    base: Option<Seq<u8>>,
    promoted: Option<Seq<u8>>,
    left: Seq<Op>,
)
    requires
        state.lanes.contains(k),
        state.files.contains_key(path),
        state.files[path].lanes.contains_key(k),
        match promotion::next_entry(
            what,
            path,
            base,
            promoted,
            lane,
            k,
            state.files[path].lanes[k],
        ) {
            Some(Entry::Present(moved)) => {
                &&& moved.len() == left.len()
                &&& forall|i: int| 0 <= i < left.len() ==> {
                    &&& (#[trigger] moved[i]).id == left[i].id
                    &&& moved[i].len == left[i].len
                    &&& moved[i].inserted == left[i].inserted
                }
            },
            Some(Entry::Deleted) => false,
            None => left.len() == 0,
        },
    ensures
        ({
            let lanes = promotion::promoted_lanes(
                what,
                state.files[path].lanes,
                path,
                lane,
                base,
                promoted,
            );
            let file = File { base: lane_file::base_state(promoted), lanes };
            let after = Repo { files: repo::with_file(state.files, path, file), ..state };
            let listed = repo::repo_change_ops(after, path, k, promoted);
            listed is Ok && lists_ops(k, listed->Ok_0, left)
        }),
{
    let lanes = promotion::promoted_lanes(
        what,
        state.files[path].lanes,
        path,
        lane,
        base,
        promoted,
    );
    let file = File { base: lane_file::base_state(promoted), lanes };
    let after = Repo { files: repo::with_file(state.files, path, file), ..state };
    let next = promotion::next_entry(
        what,
        path,
        base,
        promoted,
        lane,
        k,
        state.files[path].lanes[k],
    );
    assert(lanes.contains_key(k) == (next is Some));
    if lanes == Map::<Seq<char>, Entry>::empty() {
        assert(!lanes.contains_key(k));
    } else if next is Some {
        let moved = next->0->Present_0;
        let listed = repo::repo_change_ops(after, path, k, promoted)->Ok_0;
        assert forall|i: int| 0 <= i < left.len() implies {
            &&& (#[trigger] listed[i]).op_id == op_id::op_name(k, left[i].id)
            &&& listed[i].base_end - listed[i].base_start == left[i].len
            &&& listed[i].inserted_len == left[i].inserted.len()
        } by {
            assert(moved[i].id == left[i].id);
        }
    }
}

/// Filtering out the one operation that has a number removes it.
proof fn lemma_filter_one(list: Seq<Op>, at: int, keep: spec_fn(Op) -> bool)
    requires
        0 <= at < list.len(),
        forall|i: int| 0 <= i < list.len() ==> keep(#[trigger] list[i]) == (i != at),
    ensures
        list.filter(keep) == list.remove(at),
    decreases list.len(),
{
    reveal(Seq::filter);
    let rest = list.drop_last();
    assert(forall|i: int| 0 <= i < rest.len() ==> rest[i] == list[i]);
    assert(keep(list[list.len() - 1]) == (list.len() - 1 != at));
    if at == list.len() - 1 {
        lane_file::lemma_filter_all(rest, keep);
        assert(list.remove(at) =~= rest);
    } else {
        lemma_filter_one(rest, at, keep);
        assert(list.remove(at) =~= rest.remove(at).push(list.last()));
    }
}

/// Resolving an operation puts the replacement in the place of the range of the operation, and
/// leaves the other operations of the lane, in order.
pub proof fn law_resolved_op_fills_its_range(
    state: Repo,
    bases: Map<Seq<char>, Option<Seq<u8>>>,
    path: Seq<char>,
    lane: Seq<char>,
    base: Option<Seq<u8>>,
    list: Seq<Op>,
    at: int,
    replacement: Seq<u8>,
)
    requires
        upkeep::sound_repo(state, bases),
        state.files.contains_key(path) && bases[path] == base,
        state.files[path].lanes.contains_key(lane),
        state.files[path].lanes[lane] == Entry::Present(list),
        0 <= at < list.len(),
        lane_file::base_bytes(base).len() <= usize::MAX,
    ensures
        ({
            let bytes = lane_file::base_bytes(base);
            let op = list[at];
            let outcome = repo::repo_resolve_op(
                state,
                path,
                lane,
                base,
                op_id::op_name(lane, op.id),
                replacement,
            );
            let left = repo::repo_change_ops(outcome->Ok_0.1, path, lane, outcome->Ok_0.0);
            &&& 0 <= op.start <= op.end() <= bytes.len()
            &&& outcome is Ok
            &&& outcome->Ok_0.0 == Some(
                bytes.subrange(0, op.start) + replacement + bytes.subrange(
                    op.end(),
                    bytes.len() as int,
                ),
            )
            &&& base is Some ==> left is Ok && lists_ops(lane, left->Ok_0, list.remove(at))
        }),
{
    let file = state.files[path];
    let bytes = lane_file::base_bytes(base);
    let op = list[at];
    let id = op.id as u64;
    assert(file.lanes.contains_key(lane));
    assert(state.lanes.contains(lane));
    lemma_sound_list(state, bases, path, lane, list);
    lemma_nothing_in_the_way(state, bases, path);
    lemma_named_op(lane, list, at);
    let made = promotion::resolved_op(list, op, replacement);
    let chosen = seq![made];
    assert(op.end() <= bytes.len());
    assert(ops::in_order(chosen));
    ops::lemma_sort_ops_of_sorted(chosen);
    conflict::lemma_rendered_ok(path, bytes, chosen);
    assert(chosen[0].end() <= bytes.len());
    assert(chosen.drop_first() =~= Seq::<Op>::empty());
    assert(ops::render_from(bytes, made.end(), Seq::empty()) == bytes.subrange(
        made.end(),
        bytes.len() as int,
    ));
    assert(ops::render_from(bytes, 0, chosen) == bytes.subrange(0, op.start) + replacement
        + bytes.subrange(op.end(), bytes.len() as int));
    if base is Some {
        let ids = set![id];
        let keep = |o: Op| !ids.contains(o.id as u64);
        assert forall|i: int| 0 <= i < list.len() implies keep(#[trigger] list[i]) == (i != at) by {
            if i < at {
                assert(list[i].id != list[at].id);
            }
            if at < i {
                assert(list[at].id != list[i].id);
            }
        }
        lemma_filter_one(list, at, keep);
        let kept = promotion::kept_ops(list, ids);
        assert(kept == list.remove(at));
        assert forall|j: int| 0 <= j < kept.len() implies conflict::apart(
            #[trigger] kept[j],
            made,
        ) by {
            if j < at {
                assert(kept[j] == list[j]);
                assert(conflict::apart(list[j], list[at]));
            } else {
                assert(kept[j] == list[j + 1]);
                assert(conflict::apart(list[at], list[j + 1]));
            }
        }
        if conflict::lists_conflict(chosen, kept, false) {
            let (i, j) = choose|i: int, j: int|
                0 <= i < chosen.len() && 0 <= j < kept.len() && conflict::conflicting(
                    #[trigger] chosen[i],
                    #[trigger] kept[j],
                    false,
                );
            assert(chosen[i] == made);
            assert(conflict::apart(kept[j], made));
        }
        let what = PromotionView::Ops { list: chosen, ids };
        lemma_listed_after(
            state,
            path,
            lane,
            lane,
            what,
            base,
            Some(ops::render_from(bytes, 0, chosen)),
            kept,
        );
    }
}

/// Resolving the deletion of a file makes the replacement the base, and leaves the lane without an
/// overlay at the path.
pub proof fn law_resolved_deletion_is_replaced(
    state: Repo,
    bases: Map<Seq<char>, Option<Seq<u8>>>,
    path: Seq<char>,
    lane: Seq<char>,
    replacement: Seq<u8>,
)
    requires
        upkeep::sound_repo(state, bases),
        state.files.contains_key(path),
        state.files[path].lanes.contains_key(lane),
        state.files[path].lanes[lane] is Deleted,
    ensures
        ({
            let outcome = repo::repo_resolve_op(
                state,
                path,
                lane,
                bases[path],
                op_id::delete_name(lane),
                replacement,
            );
            &&& outcome is Ok
            &&& outcome->Ok_0.0 == Some(replacement)
            &&& !repo::overlaid(outcome->Ok_0.1, lane).contains(path)
        }),
{
    assert(state.files[path].lanes.contains_key(lane));
    assert(state.lanes.contains(lane));
    op_id::law_delete_name_is_read_back(lane);
    lemma_nothing_in_the_way(state, bases, path);
}

/// A name that refers to none of the operations of a lane resolves nothing.
pub proof fn law_unknown_name_resolves_nothing(
    state: Repo,
    bases: Map<Seq<char>, Option<Seq<u8>>>,
    path: Seq<char>,
    lane: Seq<char>,
    name: Seq<char>,
    replacement: Seq<u8>,
)
    requires
        upkeep::sound_repo(state, bases),
        state.files.contains_key(path),
        state.files[path].lanes.contains_key(lane),
        match state.files[path].lanes[lane] {
            Entry::Present(list) => !op_id::names_present(lane, list, name),
            Entry::Deleted => op_id::parsed_op_id(lane, name) != Some(ParsedOpId::Delete),
        },
    ensures
        repo::repo_resolve_op(state, path, lane, bases[path], name, replacement) == Err::<
            (Option<Seq<u8>>, Repo),
            LaneErrorView,
        >(LaneErrorView::OperationMissing(path, name)),
{
    assert(state.files[path].lanes.contains_key(lane));
    assert(state.lanes.contains(lane));
}

/// Whether a listed operation conflicts with no lane.
pub open spec fn listed_clean() -> spec_fn(OpSummaryView) -> bool {
    |listed: OpSummaryView| listed.conflicts_with.len() == 0
}

/// The names of the listed operations of a lane that conflict with no other lane.
pub open spec fn clean_names(state: Repo, path: Seq<char>, lane: Seq<char>, base: Option<Seq<u8>>) -> Seq<
    Seq<char>,
> {
    repo::repo_change_ops(state, path, lane, base)->Ok_0.filter(listed_clean()).map_values(
        |listed: OpSummaryView| listed.op_id,
    )
}

/// Whether an operation of a lane conflicts with no other lane.
pub open spec fn op_clean(file: File, lane: Seq<char>) -> spec_fn(Op) -> bool {
    |op: Op| lane_file::conflict_lanes(file, lane, op, false).len() == 0
}

/// Whether a name is that of a clean operation.
spec fn names_clean(file: File, lane: Seq<char>, list: Seq<Op>, name: Seq<char>) -> bool {
    exists|j: int|
        0 <= j < list.len() && op_clean(file, lane)(#[trigger] list[j]) && name == op_id::op_name(
            lane,
            list[j].id,
        )
}

/// The names of clean operations select them and no others.
proof fn lemma_clean_selected(
    state: Repo,
    path: Seq<char>,
    lane: Seq<char>,
    base: Seq<u8>,
    list: Seq<Op>,
)
    requires
        repo::repo_change_ops(state, path, lane, Some(base)) == Ok::<
            Seq<OpSummaryView>,
            LaneErrorView,
        >(
            lane_file::entry_summaries(
                state.files[path],
                path,
                lane,
                Entry::Present(list),
                Some(base),
            ),
        ),
        lane_file::numbered(list),
    ensures
        ({
            let names = clean_names(state, path, lane, Some(base));
            &&& op_id::first_unknown(lane, list, names) is None
            &&& forall|i: int|
                0 <= i < list.len() ==> op_id::is_selected(lane, names, (#[trigger] list[i]).id)
                    == op_clean(state.files[path], lane)(list[i])
        }),
{
    let file = state.files[path];
    let listed = repo::repo_change_ops(state, path, lane, Some(base))->Ok_0;
    let kept = listed.filter(listed_clean());
    let names = clean_names(state, path, lane, Some(base));
    broadcast use vstd::seq_lib::group_filter_ensures;

    assert forall|n: int| 0 <= n < names.len() implies names_clean(
        file,
        lane,
        list,
        #[trigger] names[n],
    ) by {
        assert(listed_clean()(kept[n]));
        assert(kept.contains(kept[n]));
        listed.lemma_filter_contains_rev(listed_clean(), kept[n]);
        let j = choose|j: int| 0 <= j < listed.len() && listed[j] == kept[n];
        assert(op_clean(file, lane)(list[j]));
    }
    assert forall|n: int| 0 <= n < names.len() implies op_id::names_present(
        lane,
        list,
        #[trigger] names[n],
    ) by {
        assert(names_clean(file, lane, list, names[n]));
        let j = choose|j: int|
            0 <= j < list.len() && op_clean(file, lane)(#[trigger] list[j]) && names[n]
                == op_id::op_name(lane, list[j].id);
        lemma_named_op(lane, list, j);
    }
    lemma_none_unknown(lane, list, names);
    assert forall|i: int| 0 <= i < list.len() implies op_id::is_selected(
        lane,
        names,
        (#[trigger] list[i]).id,
    ) == op_clean(file, lane)(list[i]) by {
        lemma_named_op(lane, list, i);
        if op_clean(file, lane)(list[i]) {
            assert(listed_clean()(listed[i]));
            assert(kept.contains(listed[i]));
            let n = choose|n: int| 0 <= n < kept.len() && kept[n] == listed[i];
            assert(names[n] == op_id::op_name(lane, list[i].id));
            assert(op_id::parsed_op_id(lane, names[n]) == Some(
                ParsedOpId::Present(list[i].id as u64),
            ));
        }
        if op_id::is_selected(lane, names, list[i].id) {
            let n = choose|n: int|
                0 <= n < names.len() && op_id::parsed_op_id(lane, #[trigger] names[n]) == Some(
                    ParsedOpId::Present(list[i].id as u64),
                );
            assert(names_clean(file, lane, list, names[n]));
            let j = choose|j: int|
                0 <= j < list.len() && op_clean(file, lane)(#[trigger] list[j]) && names[n]
                    == op_id::op_name(lane, list[j].id);
            lemma_named_op(lane, list, j);
            assert(list[j].id == list[i].id);
            if i < j {
                assert(list[i].id != list[j].id);
            } else if j < i {
                assert(list[j].id != list[i].id);
            }
        }
    }
}

/// Promoting the operations of a lane that conflict with no other lane does not change what the
/// lane sees, and leaves it the operations that conflict, in order.
pub proof fn law_accepting_clean_ops_leaves_the_others(
    state: Repo,
    bases: Map<Seq<char>, Option<Seq<u8>>>,
    path: Seq<char>,
    lane: Seq<char>,
    base: Seq<u8>,
    list: Seq<Op>,
)
    requires
        upkeep::sound_repo(state, bases),
        state.files.contains_key(path) && bases[path] == Some(base),
        state.files[path].lanes.contains_key(lane),
        state.files[path].lanes[lane] == Entry::Present(list),
        base.len() <= usize::MAX,
        clean_names(state, path, lane, Some(base)).len() > 0,
        ops::render_from(base, 0, list.filter(op_clean(state.files[path], lane))).len()
            <= usize::MAX,
    ensures
        ({
            let outcome = repo::repo_promote_ops(
                state,
                path,
                lane,
                Some(base),
                clean_names(state, path, lane, Some(base)),
            );
            let (promoted, after) = outcome->Ok_0;
            let listed = repo::repo_change_ops(after, path, lane, promoted);
            &&& outcome is Ok
            &&& repo::repo_read(after, path, lane, promoted) == repo::repo_read(
                state,
                path,
                lane,
                Some(base),
            )
            &&& listed is Ok
            &&& lists_ops(
                lane,
                listed->Ok_0,
                list.filter(|op: Op| !op_clean(state.files[path], lane)(op)),
            )
        }),
{
    let file = state.files[path];
    let names = clean_names(state, path, lane, Some(base));
    assert(file.lanes.contains_key(lane));
    assert(state.lanes.contains(lane));
    lemma_sound_list(state, bases, path, lane, list);
    lemma_clean_selected(state, path, lane, base, list);
    op_id::lemma_filter_same(
        list,
        |op: Op| op_id::is_selected(lane, names, op.id),
        op_clean(file, lane),
    );
    op_id::lemma_filter_same(
        list,
        |op: Op| !op_id::is_selected(lane, names, op.id),
        |op: Op| !op_clean(file, lane)(op),
    );
    laws::law_own_view_is_kept(state, bases, path, lane, base, names, list);
}

/// The outcome of promoting all operations of a lane at a path.
pub open spec fn accept_all(state: Repo, path: Seq<char>, lane: Seq<char>, base: Option<Seq<u8>>) -> Result<
    (Option<Seq<u8>>, Repo),
    LaneErrorView,
> {
    repo::repo_promote_ops(state, path, lane, base, all_names(state, path, lane, base))
}

/// Of two operations of different lanes one comes before the other, and not both do.
proof fn lemma_before_across_total(a: Seq<char>, x: Op, b: Seq<char>, y: Op)
    requires
        a != b,
    ensures
        rebase::before_across(a, x, b, y) == !rebase::before_across(b, y, a, x),
{
    text::lemma_text_lt_total(x.key, y.key);
    text::lemma_text_lt_total(a, b);
    text::lemma_text_lt_irreflexive(x.key);
    text::lemma_text_lt_irreflexive(a);
    if text::text_lt(x.key, y.key) && text::text_lt(y.key, x.key) {
        text::lemma_text_lt_transitive(x.key, y.key, x.key);
    }
    if text::text_lt(a, b) && text::text_lt(b, a) {
        text::lemma_text_lt_transitive(a, b, a);
    }
}

/// Merging the operations of two lanes is the same either way round.
proof fn lemma_merged_symmetric(a: Seq<char>, x: Seq<Op>, b: Seq<char>, y: Seq<Op>)
    requires
        a != b,
    ensures
        rebase::merged(a, x, b, y) == rebase::merged(b, y, a, x),
    decreases x.len() + y.len(),
{
    if x.len() == 0 && y.len() == 0 {
        assert(x =~= y);
    } else if x.len() > 0 && y.len() > 0 {
        lemma_before_across_total(a, x[0], b, y[0]);
        if rebase::before_across(a, x[0], b, y[0]) {
            lemma_merged_symmetric(a, x.drop_first(), b, y);
        } else {
            lemma_merged_symmetric(a, x, b, y.drop_first());
        }
    }
}

/// What all operations of a second lane make of the base after those of a first have been
/// promoted.
proof fn lemma_one_after_the_other(
    state: Repo,
    bases: Map<Seq<char>, Option<Seq<u8>>>,
    path: Seq<char>,
    base: Seq<u8>,
    first: Seq<char>,
    first_list: Seq<Op>,
    second: Seq<char>,
    second_list: Seq<Op>,
)
    requires
        upkeep::sound_repo(state, bases),
        state.files.contains_key(path) && bases[path] == Some(base),
        state.files[path].lanes.contains_key(first),
        state.files[path].lanes[first] == Entry::Present(first_list),
        state.files[path].lanes.contains_key(second),
        state.files[path].lanes[second] == Entry::Present(second_list),
        first != second,
        first_list.len() > 0,
        second_list.len() > 0,
        !conflict::lists_conflict(first_list, second_list, false),
        base.len() <= usize::MAX,
        ops::render_from(base, 0, first_list).len() <= usize::MAX,
        ({
            let (promoted, after) = accept_all(state, path, first, Some(base))->Ok_0;
            upkeep::sound_repo(after, bases.insert(path, promoted))
        }),
    ensures
        ({
            let one = accept_all(state, path, first, Some(base));
            let two = accept_all(one->Ok_0.1, path, second, one->Ok_0.0);
            &&& one is Ok
            &&& two is Ok
            &&& two->Ok_0.0 == Some(
                ops::render_from(
                    base,
                    0,
                    rebase::merged(first, first_list, second, second_list),
                ),
            )
        }),
{
    let names = all_names(state, path, first, Some(base));
    assert(state.files[path].lanes.contains_key(first));
    assert(state.files[path].lanes.contains_key(second));
    assert(state.lanes.contains(first));
    assert(state.lanes.contains(second));
    lemma_sound_list(state, bases, path, first, first_list);
    lemma_sound_list(state, bases, path, second, second_list);
    assert forall|i: int| 0 <= i < first_list.len() implies #[trigger] names[i] == op_id::op_name(
        first,
        first_list[i].id,
    ) by {}
    lemma_all_named(first, first_list, names);
    lemma_all_present(state, bases, path, first, first_list, names);
    laws::law_clean_edits_compose(
        state,
        bases,
        path,
        first,
        base,
        names,
        first_list,
        second,
        second_list,
    );
    let (promoted, after) = accept_all(state, path, first, Some(base))->Ok_0;
    let what = PromotionView::Ops {
        list: first_list,
        ids: promotion::selected_set(first, names),
    };
    lemma_listed_after(state, path, first, second, what, Some(base), promoted, second_list);
    let listed = repo::repo_change_ops(after, path, second, promoted);
    assert(listed is Ok && listed->Ok_0.len() == second_list.len());
    assert(after.files.contains_key(path) && after.files[path].lanes.contains_key(second));
    law_promoting_all_makes_the_view_the_base(
        after,
        bases.insert(path, promoted),
        path,
        second,
        promoted,
    );
}

/// Where the operations of two lanes do not conflict, promoting all of the one and then what is
/// left of the other ends with the same base whichever comes first. The repo is sound after each
/// first step, as it is after every promotion.
pub proof fn law_acceptance_order_does_not_matter(
    state: Repo,
    bases: Map<Seq<char>, Option<Seq<u8>>>,
    path: Seq<char>,
    base: Seq<u8>,
    a: Seq<char>,
    a_list: Seq<Op>,
    b: Seq<char>,
    b_list: Seq<Op>,
)
    requires
        upkeep::sound_repo(state, bases),
        state.files.contains_key(path) && bases[path] == Some(base),
        state.files[path].lanes.contains_key(a),
        state.files[path].lanes[a] == Entry::Present(a_list),
        state.files[path].lanes.contains_key(b),
        state.files[path].lanes[b] == Entry::Present(b_list),
        a != b,
        a_list.len() > 0,
        b_list.len() > 0,
        !conflict::lists_conflict(a_list, b_list, false),
        base.len() <= usize::MAX,
        ops::render_from(base, 0, a_list).len() <= usize::MAX,
        ops::render_from(base, 0, b_list).len() <= usize::MAX,
        ({
            let (promoted, after) = accept_all(state, path, a, Some(base))->Ok_0;
            upkeep::sound_repo(after, bases.insert(path, promoted))
        }),
        ({
            let (promoted, after) = accept_all(state, path, b, Some(base))->Ok_0;
            upkeep::sound_repo(after, bases.insert(path, promoted))
        }),
    ensures
        ({
            let a_first = accept_all(state, path, a, Some(base));
            let then_b = accept_all(a_first->Ok_0.1, path, b, a_first->Ok_0.0);
            let b_first = accept_all(state, path, b, Some(base));
            let then_a = accept_all(b_first->Ok_0.1, path, a, b_first->Ok_0.0);
            &&& a_first is Ok && then_b is Ok
            &&& b_first is Ok && then_a is Ok
            &&& then_b->Ok_0.0 == then_a->Ok_0.0
        }),
{
    if conflict::lists_conflict(b_list, a_list, false) {
        let (i, j) = choose|i: int, j: int|
            0 <= i < b_list.len() && 0 <= j < a_list.len() && conflict::conflicting(
                #[trigger] b_list[i],
                #[trigger] a_list[j],
                false,
            );
        conflict::law_conflicting_is_symmetric(b_list[i], a_list[j], false);
        assert(conflict::conflicting(a_list[j], b_list[i], false));
    }
    lemma_one_after_the_other(state, bases, path, base, a, a_list, b, b_list);
    lemma_one_after_the_other(state, bases, path, base, b, b_list, a, a_list);
    lemma_merged_symmetric(a, a_list, b, b_list);
}

} // verus!
