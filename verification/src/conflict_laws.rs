//! What holds of the conflicts that are listed between lanes.
use vstd::prelude::*;

use crate::conflict;
use crate::lane_file;
use crate::lane_file::{Entry, File};
use crate::ops::Op;
use crate::repo;
use crate::repo::Repo;
use crate::text_map;
use crate::types::{LaneErrorView, OpSummaryView};

verus! {

/// A lane shows no file at a path where the base has one.
pub open spec fn deletes(state: Repo, path: Seq<char>, lane: Seq<char>, base: Option<Seq<u8>>) -> bool {
    base is Some && repo::repo_read(state, path, lane, base) == Ok::<Option<Seq<u8>>, LaneErrorView>(
        None,
    )
}

/// What is listed for a lane at a path.
pub open spec fn listed_ops(state: Repo, path: Seq<char>, lane: Seq<char>, base: Option<Seq<u8>>) -> Seq<
    OpSummaryView,
> {
    repo::repo_change_ops(state, path, lane, base)->Ok_0
}

/// The lanes of a part of the overlays of a path are finitely many, so they can be listed.
proof fn lemma_part_is_listed(file: File, part: Set<Seq<char>>)
    requires
        file.lanes.dom().finite(),
        part.subset_of(file.lanes.dom()),
    ensures
        part.finite(),
        text_map::sorted_texts(text_map::listing(part)),
        forall|k: Seq<char>| #[trigger] text_map::listing(part).contains(k) <==> part.contains(k),
{
    vstd::set_lib::lemma_len_subset(part, file.lanes.dom());
    text_map::lemma_listing_exists(part);
}

/// The lanes that are listed as conflicts of an operation.
proof fn lemma_conflict_lanes(file: File, lane: Seq<char>, op: Op, base_missing: bool)
    requires
        file.lanes.dom().finite(),
    ensures
        text_map::sorted_texts(lane_file::conflict_lanes(file, lane, op, base_missing)),
        forall|k: Seq<char>| #[trigger]
            lane_file::conflict_lanes(file, lane, op, base_missing).contains(k) <==> k != lane
                && file.lanes.contains_key(k) && lane_file::entry_conflicts(
                file.lanes[k],
                op,
                base_missing,
            ),
{
    lemma_part_is_listed(file, lane_file::conflict_set(file, lane, op, base_missing));
}

/// The lanes that are listed as conflicts of the deletion of the file.
proof fn lemma_delete_conflict_lanes(file: File, lane: Seq<char>, base: Option<Seq<u8>>)
    requires
        file.lanes.dom().finite(),
    ensures
        text_map::sorted_texts(lane_file::delete_conflict_lanes(file, lane, base)),
        forall|k: Seq<char>| #[trigger]
            lane_file::delete_conflict_lanes(file, lane, base).contains(k) <==> k != lane
                && file.lanes.contains_key(k) && lane_file::entry_blocks_delete(
                file.lanes[k],
                base,
            ),
{
    lemma_part_is_listed(file, lane_file::delete_conflict_set(file, lane, base));
}

/// Over a base that is there, the deletion of a file in one lane and any operation of another lane
/// at the path conflict, and both lists say so. Where both lanes delete the file, neither does.
pub proof fn law_deletion_conflicts_with_every_operation(
    state: Repo,
    path: Seq<char>,
    a: Seq<char>,
    k: Seq<char>,
    base: Option<Seq<u8>>,
)
    requires
        repo::repo_ok(state),
        repo::repo_finite(state),
        a != k,
        repo::repo_change_ops(state, path, a, base) is Ok,
        repo::repo_change_ops(state, path, k, base) is Ok,
        deletes(state, path, a, base),
    ensures
        listed_ops(state, path, a, base).len() == 1,
        listed_ops(state, path, a, base)[0].conflicts_with.contains(k) <==> listed_ops(
            state,
            path,
            k,
            base,
        ).len() > 0 && !deletes(state, path, k, base),
        forall|j: int|
            0 <= j < listed_ops(state, path, k, base).len() ==> ((#[trigger] listed_ops(
                state,
                path,
                k,
                base,
            )[j]).conflicts_with.contains(a) <==> !deletes(state, path, k, base)),
{
    repo::lemma_base_is_no_lane(state, a);
    repo::lemma_base_is_no_lane(state, k);
    let file = state.files[path];
    assert(state.files.contains_key(path) && file.lanes.contains_key(a) && file.lanes[a] is Deleted);
    lemma_delete_conflict_lanes(file, a, base);
    lemma_delete_conflict_lanes(file, k, base);
    let theirs = listed_ops(state, path, k, base);
    assert forall|j: int| 0 <= j < theirs.len() implies ((
    #[trigger] theirs[j]).conflicts_with.contains(a) <==> !deletes(state, path, k, base)) by {
        if let Entry::Present(list) = file.lanes[k] {
            lemma_conflict_lanes(file, k, list[j], base is None);
        }
    }
}

/// Over a base that is there, an operation of a lane that shows the file lists another such lane as
/// a conflict exactly where one of the operations of that lane takes some of the same ground: it
/// begins before this one ends, and ends after this one begins.
pub proof fn law_edits_conflict_where_they_meet(
    state: Repo,
    path: Seq<char>,
    a: Seq<char>,
    k: Seq<char>,
    base: Option<Seq<u8>>,
    i: int,
)
    requires
        repo::repo_ok(state),
        repo::repo_finite(state),
        a != k,
        base is Some,
        repo::repo_change_ops(state, path, a, base) is Ok,
        repo::repo_change_ops(state, path, k, base) is Ok,
        !deletes(state, path, a, base),
        !deletes(state, path, k, base),
        0 <= i < listed_ops(state, path, a, base).len(),
    ensures
        listed_ops(state, path, a, base)[i].conflicts_with.contains(k) <==> exists|j: int|
            0 <= j < listed_ops(state, path, k, base).len() && (#[trigger] listed_ops(
                state,
                path,
                k,
                base,
            )[j]).base_start < listed_ops(state, path, a, base)[i].base_end && listed_ops(
                state,
                path,
                a,
                base,
            )[i].base_start < listed_ops(state, path, k, base)[j].base_end,
{
    repo::lemma_base_is_no_lane(state, a);
    repo::lemma_base_is_no_lane(state, k);
    let file = state.files[path];
    assert(file.lanes.contains_key(a) && file.lanes[a] is Present);
    let mine = listed_ops(state, path, a, base);
    let theirs = listed_ops(state, path, k, base);
    let list = file.lanes[a]->Present_0;
    lemma_conflict_lanes(file, a, list[i], base is None);
    if file.lanes.contains_key(k) {
        let others = file.lanes[k]->Present_0;
        assert(theirs.len() == others.len());
        if mine[i].conflicts_with.contains(k) {
            let j = choose|j: int|
                0 <= j < others.len() && conflict::conflicting(list[i], #[trigger] others[j], false);
            assert(theirs[j].base_start == others[j].start);
            assert(theirs[j].base_start < mine[i].base_end && mine[i].base_start
                < theirs[j].base_end);
        }
        if exists|j: int|
            0 <= j < theirs.len() && (#[trigger] theirs[j]).base_start < mine[i].base_end
                && mine[i].base_start < theirs[j].base_end {
            let j = choose|j: int|
                0 <= j < theirs.len() && (#[trigger] theirs[j]).base_start < mine[i].base_end
                    && mine[i].base_start < theirs[j].base_end;
            assert(conflict::conflicting(list[i], others[j], false));
            assert(lane_file::entry_conflicts(file.lanes[k], list[i], false));
        }
    }
}

/// Where there is no base file, every operation conflicts with every other lane that shows a file
/// of its own at the path.
pub proof fn law_creations_conflict(
    state: Repo,
    path: Seq<char>,
    a: Seq<char>,
    k: Seq<char>,
    seen: Seq<u8>,
    other: Seq<u8>,
    i: int,
)
    requires
        repo::repo_ok(state),
        repo::repo_finite(state),
        a != k,
        repo::repo_read(state, path, a, None) == Ok::<Option<Seq<u8>>, LaneErrorView>(Some(seen)),
        repo::repo_read(state, path, k, None) == Ok::<Option<Seq<u8>>, LaneErrorView>(Some(other)),
        a != "base"@,
        k != "base"@,
        0 <= i < listed_ops(state, path, a, None).len(),
    ensures
        listed_ops(state, path, a, None)[i].conflicts_with.contains(k) <==> listed_ops(
            state,
            path,
            k,
            None,
        ).len() > 0,
{
    let file = state.files[path];
    let list = file.lanes[a]->Present_0;
    let others = file.lanes[k]->Present_0;
    lemma_conflict_lanes(file, a, list[i], true);
    if others.len() > 0 {
        assert(conflict::conflicting(list[i], others[0], true));
    }
}

/// An operation of the one lane lists the other as a conflict exactly where some operation of the
/// other lists the one.
pub proof fn law_conflicts_go_both_ways(
    state: Repo,
    path: Seq<char>,
    a: Seq<char>,
    k: Seq<char>,
    base: Option<Seq<u8>>,
    i: int,
)
    requires
        repo::repo_ok(state),
        repo::repo_finite(state),
        repo::repo_change_ops(state, path, a, base) is Ok,
        repo::repo_change_ops(state, path, k, base) is Ok,
        0 <= i < listed_ops(state, path, a, base).len(),
        listed_ops(state, path, a, base)[i].conflicts_with.contains(k),
    ensures
        exists|j: int|
            0 <= j < listed_ops(state, path, k, base).len() && (#[trigger] listed_ops(
                state,
                path,
                k,
                base,
            )[j]).conflicts_with.contains(a),
{
    repo::lemma_base_is_no_lane(state, a);
    repo::lemma_base_is_no_lane(state, k);
    let file = state.files[path];
    let theirs = listed_ops(state, path, k, base);
    match file.lanes[a] {
        Entry::Present(list) => {
            lemma_conflict_lanes(file, a, list[i], base is None);
            match file.lanes[k] {
                Entry::Present(others) => {
                    let j = choose|j: int|
                        0 <= j < others.len() && conflict::conflicting(
                            list[i],
                            #[trigger] others[j],
                            base is None,
                        );
                    lemma_conflict_lanes(file, k, others[j], base is None);
                    assert(conflict::conflicting(others[j], list[i], base is None));
                    assert(theirs[j].conflicts_with.contains(a));
                },
                Entry::Deleted => {
                    lemma_delete_conflict_lanes(file, k, base);
                    assert(theirs[0].conflicts_with.contains(a));
                },
            }
        },
        Entry::Deleted => {
            lemma_delete_conflict_lanes(file, a, base);
            let others = file.lanes[k]->Present_0;
            lemma_conflict_lanes(file, k, others[0], base is None);
            assert(theirs[0].conflicts_with.contains(a));
        },
    }
}

/// The lanes that are listed as conflicts are other lanes of the repo with an overlay at the path,
/// each once and in order.
pub proof fn law_conflicts_are_other_lanes(
    state: Repo,
    path: Seq<char>,
    a: Seq<char>,
    base: Option<Seq<u8>>,
    i: int,
)
    requires
        repo::repo_ok(state),
        repo::repo_finite(state),
        repo::repo_change_ops(state, path, a, base) is Ok,
        0 <= i < listed_ops(state, path, a, base).len(),
    ensures
        text_map::sorted_texts(listed_ops(state, path, a, base)[i].conflicts_with),
        forall|k: Seq<char>| #[trigger]
            listed_ops(state, path, a, base)[i].conflicts_with.contains(k) ==> k != a
                && state.lanes.contains(k) && listed_ops(state, path, k, base).len() > 0,
{
    let file = state.files[path];
    match file.lanes[a] {
        Entry::Present(list) => {
            lemma_conflict_lanes(file, a, list[i], base is None);
        },
        Entry::Deleted => {
            lemma_delete_conflict_lanes(file, a, base);
        },
    }
    let mine = listed_ops(state, path, a, base)[i];
    assert forall|k: Seq<char>| #[trigger] mine.conflicts_with.contains(k) implies k != a
        && state.lanes.contains(k) && listed_ops(state, path, k, base).len() > 0 by {
        assert(file.lanes.contains_key(k));
        assert(state.lanes.contains(k));
    }
}

} // verus!
